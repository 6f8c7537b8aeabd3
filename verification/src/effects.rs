//! Integer pixel effects: pixelate, RGB displacement, median, oil painting, canvas border.
use vstd::prelude::*;
use crate::canvas::{CanvasState, commit_to_layer};
use crate::raster::{RgbaImage, GrayImage, pix_idx, mask_allows, mask_wf, mask_view, mask_selects, lemma_row_step, prefix_matches, push_pixel, lemma_prefix_complete, get_px};

verus! {

pub open spec fn min_int(a: int, b: int) -> int {
    if a <= b { a } else { b }
}

pub open spec fn max_int(a: int, b: int) -> int {
    if a >= b { a } else { b }
}

pub open spec fn clamp_int(v: int, lo: int, hi: int) -> int {
    if v < lo { lo } else if v > hi { hi } else { v }
}

/// Coordinate of the sample taken for `v` when blocks are `bs` wide: the block centre,
/// kept inside `[0, limit)`.
pub open spec fn block_center(v: int, bs: int, limit: int) -> int {
    min_int((v / bs) * bs + bs / 2, limit - 1)
}

/// Channel `c` of output pixel `(x, y)` of `pixelate_core`.
pub open spec fn pixelate_expected(
    flat: RgbaImage,
    block_size: u32,
    mask: Option<GrayImage>,
    x: int,
    y: int,
    c: int,
) -> u8 {
    let bs = max_int(block_size as int, 2);
    if mask_allows(mask, x, y) {
        flat.at(block_center(x, bs, flat.width as int), block_center(y, bs, flat.height as int), c)
    } else {
        flat.at(x, y, c)
    }
}

fn block_center_exec(v: usize, bs: u32, limit: u32) -> (r: usize)
    requires
        v < limit,
        bs >= 2,
    ensures
        r as int == block_center(v as int, bs as int, limit as int),
        r < limit,
{
    let v64 = v as u64;
    let b64 = bs as u64;
    proof {
        assert((v64 / b64) * b64 <= v64) by (nonlinear_arith)
            requires b64 > 0, v64 >= 0;
    }
    let c = (v64 / b64) * b64 + b64 / 2;
    let last = (limit - 1) as u64;
    if c <= last { c as usize } else { last as usize }
}

/// Replace each selected pixel by the pixel at the centre of its `block_size` square
/// (`block_size` is raised to at least 2); unselected pixels keep their value.
pub fn pixelate_core(flat: &RgbaImage, block_size: u32, mask: Option<&GrayImage>) -> (out: RgbaImage)
    requires
        flat.wf(),
        mask_wf(mask),
    ensures
        image_is(out, *flat, |x: int, y: int, c: int| pixelate_expected(*flat, block_size, mask_view(mask), x, y, c)),
{
    let w = flat.width;
    let h = flat.height;
    if w == 0 || h == 0 {
        return RgbaImage { width: w, height: h, data: flat.data.clone() };
    }
    let bs: u32 = if block_size < 2 { 2 } else { block_size };
    let wu = w as usize;
    let hu = h as usize;
    let ghost wi = w as int;
    let ghost f = |xx: int, yy: int, c: int| pixelate_expected(*flat, block_size, mask_view(mask), xx, yy, c);
    let mut out: Vec<u8> = Vec::new();
    let mut y: usize = 0;
    while y < hu
        invariant
            flat.wf(),
            mask_wf(mask),
            wu == w, hu == h, wi == w as int, w > 0, h > 0, w == flat.width, h == flat.height,
            bs as int == max_int(block_size as int, 2),
            f == (|xx: int, yy: int, c: int| pixelate_expected(*flat, block_size, mask_view(mask), xx, yy, c)),
            y <= hu,
            out@.len() == (y * wi) * 4,
            prefix_matches(out@, wi, y * wi, f),
        decreases hu - y,
    {
        let mut x: usize = 0;
        while x < wu
            invariant
                flat.wf(),
                mask_wf(mask),
                wu == w, hu == h, wi == w as int, w > 0, h > 0, w == flat.width, h == flat.height,
                bs as int == max_int(block_size as int, 2),
                f == (|xx: int, yy: int, c: int| pixelate_expected(*flat, block_size, mask_view(mask), xx, yy, c)),
                y < hu,
                x <= wu,
                out@.len() == (y * wi + x) * 4,
                prefix_matches(out@, wi, y * wi + x, f),
            decreases wu - x,
        {
            let (sx, sy) = if mask_selects(mask, x, y) {
                (block_center_exec(x, bs, w), block_center_exec(y, bs, h))
            } else {
                (x, y)
            };
            let (p0, p1, p2, p3) = get_px(flat, sx, sy);
            push_pixel(&mut out, p0, p1, p2, p3, Ghost(wi), Ghost(x as int), Ghost(y as int), Ghost(f));
            x += 1;
        }
        proof {
            lemma_row_step(wi, y as int);
        }
        y += 1;
    }
    proof {
        lemma_prefix_complete(out@, wi, h as int, f);
    }
    RgbaImage { width: w, height: h, data: out }
}


/// Clamp `v + off` into `[0, limit)` (with `limit > 0`).
pub open spec fn shifted(v: int, off: int, limit: int) -> int {
    clamp_int(v + off, 0, limit - 1)
}

fn shifted_exec(v: usize, off: i32, limit: u32) -> (r: usize)
    requires
        v < limit,
    ensures
        r as int == shifted(v as int, off as int, limit as int),
        r < limit,
{
    let t = v as i64 + off as i64;
    let last = (limit - 1) as i64;
    if t < 0 {
        0
    } else if t > last {
        last as usize
    } else {
        t as usize
    }
}

/// Channel `c` of output pixel `(x, y)` of `rgb_displace_core`.
pub open spec fn rgb_displace_expected(
    flat: RgbaImage,
    r_off: (i32, i32),
    g_off: (i32, i32),
    b_off: (i32, i32),
    mask: Option<GrayImage>,
    x: int,
    y: int,
    c: int,
) -> u8 {
    let w = flat.width as int;
    let h = flat.height as int;
    if !mask_allows(mask, x, y) || c == 3 {
        flat.at(x, y, c)
    } else if c == 0 {
        flat.at(shifted(x, r_off.0 as int, w), shifted(y, r_off.1 as int, h), 0)
    } else if c == 1 {
        flat.at(shifted(x, g_off.0 as int, w), shifted(y, g_off.1 as int, h), 1)
    } else {
        flat.at(shifted(x, b_off.0 as int, w), shifted(y, b_off.1 as int, h), 2)
    }
}

/// `out` has the dimensions of `flat` and every channel is given by `f`.
pub open spec fn image_is(out: RgbaImage, flat: RgbaImage, f: spec_fn(int, int, int) -> u8) -> bool {
    &&& out.wf()
    &&& out.width == flat.width
    &&& out.height == flat.height
    &&& forall|x: int, y: int, c: int|
        0 <= x < flat.width && 0 <= y < flat.height && 0 <= c < 4 ==> #[trigger] out.at(x, y, c) == f(x, y, c)
}

/// Take the red, green and blue channels of each selected pixel from positions shifted by
/// the given offsets (clamped to the image); alpha stays with the pixel.
pub fn rgb_displace_core(
    flat: &RgbaImage,
    r_off: (i32, i32),
    g_off: (i32, i32),
    b_off: (i32, i32),
    mask: Option<&GrayImage>,
) -> (out: RgbaImage)
    requires
        flat.wf(),
        mask_wf(mask),
    ensures
        image_is(out, *flat, |x: int, y: int, c: int| rgb_displace_expected(*flat, r_off, g_off, b_off, mask_view(mask), x, y, c)),
{
    let w = flat.width;
    let h = flat.height;
    let ghost f = |x: int, y: int, c: int| rgb_displace_expected(*flat, r_off, g_off, b_off, mask_view(mask), x, y, c);
    if w == 0 || h == 0 {
        return RgbaImage { width: w, height: h, data: flat.data.clone() };
    }
    let wu = w as usize;
    let hu = h as usize;
    let ghost wi = w as int;
    let mut out: Vec<u8> = Vec::new();
    let mut y: usize = 0;
    while y < hu
        invariant
            flat.wf(), mask_wf(mask),
            wu == w, hu == h, wi == w as int, w > 0, h > 0, w == flat.width, h == flat.height,
            f == (|x: int, y: int, c: int| rgb_displace_expected(*flat, r_off, g_off, b_off, mask_view(mask), x, y, c)),
            y <= hu,
            out@.len() == (y * wi) * 4,
            prefix_matches(out@, wi, y * wi, f),
        decreases hu - y,
    {
        let mut x: usize = 0;
        while x < wu
            invariant
                flat.wf(), mask_wf(mask),
                wu == w, hu == h, wi == w as int, w > 0, h > 0, w == flat.width, h == flat.height,
                f == (|x: int, y: int, c: int| rgb_displace_expected(*flat, r_off, g_off, b_off, mask_view(mask), x, y, c)),
                y < hu,
                x <= wu,
                out@.len() == (y * wi + x) * 4,
                prefix_matches(out@, wi, y * wi + x, f),
            decreases wu - x,
        {
            let (c0, c1, c2, c3) = get_px(flat, x, y);
            let (p0, p1, p2) = if mask_selects(mask, x, y) {
                let (r, _, _, _) = get_px(flat, shifted_exec(x, r_off.0, w), shifted_exec(y, r_off.1, h));
                let (_, g, _, _) = get_px(flat, shifted_exec(x, g_off.0, w), shifted_exec(y, g_off.1, h));
                let (_, _, b, _) = get_px(flat, shifted_exec(x, b_off.0, w), shifted_exec(y, b_off.1, h));
                (r, g, b)
            } else {
                (c0, c1, c2)
            };
            push_pixel(&mut out, p0, p1, p2, c3, Ghost(wi), Ghost(x as int), Ghost(y as int), Ghost(f));
            x += 1;
        }
        proof {
            lemma_row_step(wi, y as int);
        }
        y += 1;
    }
    proof {
        lemma_prefix_complete(out@, wi, h as int, f);
    }
    RgbaImage { width: w, height: h, data: out }
}

/// Whether `(x, y)` lies within `bw` pixels of an edge of a `w` by `h` image.
pub open spec fn in_border(x: int, y: int, w: int, h: int, bw: int) -> bool {
    x < bw || y < bw || x >= w - bw || y >= h - bw
}

/// Border thickness used by `canvas_border_core`: at least 1, at most the shorter side.
pub open spec fn border_thickness(width: u32, w: int, h: int) -> int {
    min_int(max_int(width as int, 1), min_int(w, h))
}

/// Channel `c` of output pixel `(x, y)` of `canvas_border_core`.
pub open spec fn canvas_border_expected(
    flat: RgbaImage,
    width: u32,
    color: [u8; 4],
    mask: Option<GrayImage>,
    x: int,
    y: int,
    c: int,
) -> u8 {
    let w = flat.width as int;
    let h = flat.height as int;
    if mask_allows(mask, x, y) && in_border(x, y, w, h, border_thickness(width, w, h)) {
        color@[c]
    } else {
        flat.at(x, y, c)
    }
}

/// Paint a frame of `color` around the image edges; unselected pixels keep their value.
pub fn canvas_border_core(
    flat: &RgbaImage,
    width: u32,
    color: [u8; 4],
    mask: Option<&GrayImage>,
) -> (out: RgbaImage)
    requires
        flat.wf(),
        mask_wf(mask),
    ensures
        image_is(out, *flat, |x: int, y: int, c: int| canvas_border_expected(*flat, width, color, mask_view(mask), x, y, c)),
{
    let w = flat.width;
    let h = flat.height;
    let ghost f = |x: int, y: int, c: int| canvas_border_expected(*flat, width, color, mask_view(mask), x, y, c);
    if w == 0 || h == 0 {
        return RgbaImage { width: w, height: h, data: flat.data.clone() };
    }
    let lo = if width < 1 { 1 } else { width };
    let side = if w < h { w } else { h };
    let bw = if lo < side { lo } else { side };
    let wu = w as usize;
    let hu = h as usize;
    let ghost wi = w as int;
    let mut out: Vec<u8> = Vec::new();
    let mut y: usize = 0;
    while y < hu
        invariant
            flat.wf(), mask_wf(mask),
            wu == w, hu == h, wi == w as int, w > 0, h > 0, w == flat.width, h == flat.height,
            bw as int == border_thickness(width, w as int, h as int),
            f == (|x: int, y: int, c: int| canvas_border_expected(*flat, width, color, mask_view(mask), x, y, c)),
            y <= hu,
            out@.len() == (y * wi) * 4,
            prefix_matches(out@, wi, y * wi, f),
        decreases hu - y,
    {
        let mut x: usize = 0;
        while x < wu
            invariant
                flat.wf(), mask_wf(mask),
                wu == w, hu == h, wi == w as int, w > 0, h > 0, w == flat.width, h == flat.height,
                bw as int == border_thickness(width, w as int, h as int),
                f == (|x: int, y: int, c: int| canvas_border_expected(*flat, width, color, mask_view(mask), x, y, c)),
                y < hu,
                x <= wu,
                out@.len() == (y * wi + x) * 4,
                prefix_matches(out@, wi, y * wi + x, f),
            decreases wu - x,
        {
            let xu = x as u32;
            let yu = y as u32;
            let is_border = xu < bw || yu < bw || xu >= w - bw || yu >= h - bw;
            let (c0, c1, c2, c3) = get_px(flat, x, y);
            if mask_selects(mask, x, y) && is_border {
                push_pixel(&mut out, color[0], color[1], color[2], color[3], Ghost(wi), Ghost(x as int), Ghost(y as int), Ghost(f));
            } else {
                push_pixel(&mut out, c0, c1, c2, c3, Ghost(wi), Ghost(x as int), Ghost(y as int), Ghost(f));
            }
            x += 1;
        }
        proof {
            lemma_row_step(wi, y as int);
        }
        y += 1;
    }
    proof {
        lemma_prefix_complete(out@, wi, h as int, f);
    }
    RgbaImage { width: w, height: h, data: out }
}

/// Channel `c` of the image sample at offset `(dx, dy)` from `(x, y)`, with coordinates
/// clamped to the image.
pub open spec fn sample_at(flat: RgbaImage, x: int, y: int, dx: int, dy: int, c: int) -> u8 {
    flat.at(shifted(x, dx, flat.width as int), shifted(y, dy, flat.height as int), c)
}

pub open spec fn in_band(v: u8, lo: int, hi: int) -> bool {
    lo <= v && v < hi
}

/// Number of samples in row `dy` at offsets `dx = -r .. -r + n - 1` whose channel `c`
/// lies in `[lo, hi)`.
pub open spec fn cnt_row(flat: RgbaImage, x: int, y: int, r: int, c: int, lo: int, hi: int, dy: int, n: int) -> nat
    decreases n,
{
    if n <= 0 {
        0
    } else {
        cnt_row(flat, x, y, r, c, lo, hi, dy, n - 1)
            + if in_band(sample_at(flat, x, y, -r + n - 1, dy, c), lo, hi) { 1nat } else { 0nat }
    }
}

/// Number of samples in the first `m` rows of the `(2r+1)` square window around `(x, y)`
/// whose channel `c` lies in `[lo, hi)`.
pub open spec fn cnt_win(flat: RgbaImage, x: int, y: int, r: int, c: int, lo: int, hi: int, m: int) -> nat
    decreases m,
{
    if m <= 0 {
        0
    } else {
        cnt_win(flat, x, y, r, c, lo, hi, m - 1) + cnt_row(flat, x, y, r, c, lo, hi, -r + m - 1, 2 * r + 1)
    }
}

/// Number of window samples (radius `r`) of channel `c` strictly below `v`.
pub open spec fn count_below(flat: RgbaImage, x: int, y: int, r: int, c: int, v: int) -> nat {
    cnt_win(flat, x, y, r, c, 0, v, 2 * r + 1)
}

/// Smallest value `v >= start` (capped at 255) with more than half the window at or below it.
pub open spec fn median_scan(flat: RgbaImage, x: int, y: int, r: int, c: int, start: int) -> int
    decreases 256 - start,
{
    if start >= 255 || count_below(flat, x, y, r, c, start + 1) > ((2 * r + 1) * (2 * r + 1)) / 2 {
        start
    } else {
        median_scan(flat, x, y, r, c, start + 1)
    }
}

/// Median of channel `c` over the `(2r+1)`-square window around `(x, y)`: the value at
/// position `n / 2` of the sorted window samples.
pub open spec fn median_at(flat: RgbaImage, x: int, y: int, r: int, c: int) -> int {
    median_scan(flat, x, y, r, c, 0)
}

/// Channel `c` of output pixel `(x, y)` of `median_core`.
pub open spec fn median_expected(flat: RgbaImage, radius: u32, mask: Option<GrayImage>, x: int, y: int, c: int) -> u8 {
    if mask_allows(mask, x, y) {
        median_at(flat, x, y, max_int(radius as int, 1), c) as u8
    } else {
        flat.at(x, y, c)
    }
}

proof fn lemma_cnt_row_split(flat: RgbaImage, x: int, y: int, r: int, c: int, lo: int, mid: int, hi: int, dy: int, n: int)
    requires
        lo <= mid <= hi,
    ensures
        cnt_row(flat, x, y, r, c, lo, hi, dy, n) == cnt_row(flat, x, y, r, c, lo, mid, dy, n) + cnt_row(flat, x, y, r, c, mid, hi, dy, n),
        cnt_row(flat, x, y, r, c, lo, hi, dy, n) <= if n < 0 { 0 } else { n },
    decreases n,
{
    if n > 0 {
        lemma_cnt_row_split(flat, x, y, r, c, lo, mid, hi, dy, n - 1);
    }
}

proof fn lemma_cnt_win_split(flat: RgbaImage, x: int, y: int, r: int, c: int, lo: int, mid: int, hi: int, m: int)
    requires
        lo <= mid <= hi,
        r >= 0,
    ensures
        cnt_win(flat, x, y, r, c, lo, hi, m) == cnt_win(flat, x, y, r, c, lo, mid, m) + cnt_win(flat, x, y, r, c, mid, hi, m),
        cnt_win(flat, x, y, r, c, lo, hi, m) <= if m < 0 { 0 } else { m * (2 * r + 1) },
    decreases m,
{
    if m > 0 {
        lemma_cnt_win_split(flat, x, y, r, c, lo, mid, hi, m - 1);
        lemma_cnt_row_split(flat, x, y, r, c, lo, mid, hi, -r + m - 1, 2 * r + 1);
        assert((m - 1) * (2 * r + 1) + (2 * r + 1) == m * (2 * r + 1)) by (nonlinear_arith);
    }
}

/// The whole window lies in `[0, 256)`.
proof fn lemma_cnt_all(flat: RgbaImage, x: int, y: int, r: int, c: int, m: int)
    requires
        r >= 0,
        m >= 0,
    ensures
        cnt_win(flat, x, y, r, c, 0, 256, m) == m * (2 * r + 1),
    decreases m,
{
    if m > 0 {
        lemma_cnt_all(flat, x, y, r, c, m - 1);
        lemma_cnt_row_all(flat, x, y, r, c, -r + m - 1, 2 * r + 1);
        assert((m - 1) * (2 * r + 1) + (2 * r + 1) == m * (2 * r + 1)) by (nonlinear_arith);
    } else {
        assert(0 * (2 * r + 1) == 0);
    }
}

proof fn lemma_cnt_row_all(flat: RgbaImage, x: int, y: int, r: int, c: int, dy: int, n: int)
    requires
        n >= 0,
    ensures
        cnt_row(flat, x, y, r, c, 0, 256, dy, n) == n,
    decreases n,
{
    if n > 0 {
        lemma_cnt_row_all(flat, x, y, r, c, dy, n - 1);
    }
}

/// The median is an order statistic: at most half the window lies strictly below it and
/// more than half lies at or below it.
pub proof fn lemma_median_is_order_statistic(flat: RgbaImage, x: int, y: int, r: int, c: int)
    requires
        r >= 0,
    ensures
        0 <= median_at(flat, x, y, r, c) <= 255,
        count_below(flat, x, y, r, c, median_at(flat, x, y, r, c)) <= ((2 * r + 1) * (2 * r + 1)) / 2,
        count_below(flat, x, y, r, c, median_at(flat, x, y, r, c) + 1) > ((2 * r + 1) * (2 * r + 1)) / 2,
{
    lemma_cnt_win_zero(flat, x, y, r, c, 2 * r + 1);
    lemma_median_scan(flat, x, y, r, c, 0);
}

proof fn lemma_median_scan(flat: RgbaImage, x: int, y: int, r: int, c: int, start: int)
    requires
        r >= 0,
        0 <= start <= 255,
        count_below(flat, x, y, r, c, start) <= ((2 * r + 1) * (2 * r + 1)) / 2,
    ensures
        start <= median_scan(flat, x, y, r, c, start) <= 255,
        count_below(flat, x, y, r, c, median_scan(flat, x, y, r, c, start)) <= ((2 * r + 1) * (2 * r + 1)) / 2,
        count_below(flat, x, y, r, c, median_scan(flat, x, y, r, c, start) + 1) > ((2 * r + 1) * (2 * r + 1)) / 2,
    decreases 256 - start,
{
    let k = ((2 * r + 1) * (2 * r + 1)) / 2;
    if start >= 255 {
        lemma_cnt_all(flat, x, y, r, c, 2 * r + 1);
        assert((2 * r + 1) * (2 * r + 1) > ((2 * r + 1) * (2 * r + 1)) / 2) by (nonlinear_arith)
            requires r >= 0;
    } else if count_below(flat, x, y, r, c, start + 1) > k {
    } else {
        lemma_median_scan(flat, x, y, r, c, start + 1);
    }
}

/// Median of channel `c` over the clamped window of radius `r` around `(x, y)`.
fn median_channel(flat: &RgbaImage, x: usize, y: usize, r: u32, c: usize) -> (m: u8)
    requires
        flat.wf(),
        x < flat.width,
        y < flat.height,
        1 <= r <= i32::MAX,
        c < 4,
    ensures
        m as int == median_at(*flat, x as int, y as int, r as int, c as int),
{
    let ghost ri = r as int;
    let mut hist: Vec<u64> = Vec::new();
    while hist.len() < 256
        invariant
            hist@.len() <= 256,
            forall|v: int| 0 <= v < hist@.len() ==> hist@[v] == 0,
        decreases 256 - hist@.len(),
    {
        hist.push(0);
    }
    let n: u64 = 2 * (r as u64) + 1;
    let r64 = r as i64;
    let mut dyi: u64 = 0;
    while dyi < n
        invariant
            flat.wf(), x < flat.width, y < flat.height, c < 4,
            ri == r as int, 1 <= r <= i32::MAX, r64 == r as i64,
            n == 2 * ri + 1,
            dyi <= n,
            hist@.len() == 256,
            forall|v: int| 0 <= v < 256 ==> #[trigger] hist@[v] == cnt_win(*flat, x as int, y as int, ri, c as int, v, v + 1, dyi as int),
            forall|v: int| 0 <= v < 256 ==> #[trigger] hist@[v] <= dyi * n,
        decreases n - dyi,
    {
        let dy = dyi as i64 - r64;
        let sy = shifted_exec(y, dy as i32, flat.height);
        let mut dxi: u64 = 0;
        while dxi < n
            invariant
                flat.wf(), x < flat.width, y < flat.height, c < 4,
                ri == r as int, 1 <= r <= i32::MAX, r64 == r as i64,
                n == 2 * ri + 1,
                dyi < n,
                dy == dyi - ri,
                sy as int == shifted(y as int, dy as int, flat.height as int),
                sy < flat.height,
                dxi <= n,
                hist@.len() == 256,
                forall|v: int| 0 <= v < 256 ==> #[trigger] hist@[v] == cnt_win(*flat, x as int, y as int, ri, c as int, v, v + 1, dyi as int)
                    + cnt_row(*flat, x as int, y as int, ri, c as int, v, v + 1, dy as int, dxi as int),
                forall|v: int| 0 <= v < 256 ==> #[trigger] hist@[v] <= dyi * n + dxi,
            decreases n - dxi,
        {
            let dx = dxi as i64 - r64;
            let sx = shifted_exec(x, dx as i32, flat.width);
            let (p0, p1, p2, p3) = get_px(flat, sx, sy);
            let val = if c == 0 { p0 } else if c == 1 { p1 } else if c == 2 { p2 } else { p3 };
            let vi = val as usize;
            proof {
                assert(dyi * n + dxi < n * n) by (nonlinear_arith)
                    requires dyi < n, dxi < n;
                assert(n * n <= 0xFFFF_FFFFu64 * 0xFFFF_FFFFu64) by (nonlinear_arith)
                    requires n <= 0xFFFF_FFFFu64;
            }
            let old_count = hist[vi];
            hist.set(vi, old_count + 1);
            proof {
                assert forall|v: int| 0 <= v < 256 implies #[trigger] hist@[v] == cnt_win(*flat, x as int, y as int, ri, c as int, v, v + 1, dyi as int)
                    + cnt_row(*flat, x as int, y as int, ri, c as int, v, v + 1, dy as int, dxi + 1) by {
                    assert(val == sample_at(*flat, x as int, y as int, -ri + (dxi + 1) - 1, dy as int, c as int));
                }
            }
            dxi += 1;
        }
        proof {
            assert(dy as int == -ri + (dyi + 1) - 1);
            assert(dyi * n + n == (dyi + 1) * n) by (nonlinear_arith);
        }
        dyi += 1;
    }
    let ghost nn = (2 * ri + 1) * (2 * ri + 1);
    proof {
        assert(n * n == nn);
        assert(n * n <= 0xFFFF_FFFFu64 * 0xFFFF_FFFFu64) by (nonlinear_arith)
            requires n <= 0xFFFF_FFFFu64;
    }
    let k: u64 = (n * n) / 2;
    let mut cum: u64 = 0;
    let mut v: usize = 0;
    proof {
        assert(count_below(*flat, x as int, y as int, ri, c as int, 0) == 0) by {
            lemma_cnt_win_zero(*flat, x as int, y as int, ri, c as int, 2 * ri + 1);
        }
    }
    loop
        invariant
            flat.wf(), c < 4, ri >= 1, ri == r as int,
            n == 2 * ri + 1,
            nn == n * n,
            nn <= 0xFFFF_FFFFu64 * 0xFFFF_FFFFu64,
            k == nn / 2,
            hist@.len() == 256,
            forall|u: int| 0 <= u < 256 ==> #[trigger] hist@[u] == cnt_win(*flat, x as int, y as int, ri, c as int, u, u + 1, n as int),
            v < 256,
            cum == count_below(*flat, x as int, y as int, ri, c as int, v as int),
            cum <= k,
            median_at(*flat, x as int, y as int, ri, c as int) == median_scan(*flat, x as int, y as int, ri, c as int, v as int),
        decreases 256 - v,
    {
        proof {
            lemma_cnt_win_split(*flat, x as int, y as int, ri, c as int, 0, v as int, v as int + 1, n as int);
            lemma_cnt_win_split(*flat, x as int, y as int, ri, c as int, 0, v as int + 1, 256, n as int);
            lemma_cnt_all(*flat, x as int, y as int, ri, c as int, n as int);
            assert(cnt_win(*flat, x as int, y as int, ri, c as int, 0, 256, n as int) == nn);
        }
        let next = cum + hist[v];
        if v == 255 || next > k {
            assert(next == count_below(*flat, x as int, y as int, ri, c as int, v as int + 1));
            assert(k == ((2 * ri + 1) * (2 * ri + 1)) / 2);
            assert(median_scan(*flat, x as int, y as int, ri, c as int, v as int) == v);
            return v as u8;
        }
        cum = next;
        v += 1;
    }
}

proof fn lemma_cnt_win_zero(flat: RgbaImage, x: int, y: int, r: int, c: int, m: int)
    ensures
        cnt_win(flat, x, y, r, c, 0, 0, m) == 0,
    decreases m,
{
    if m > 0 {
        lemma_cnt_win_zero(flat, x, y, r, c, m - 1);
        lemma_cnt_row_zero(flat, x, y, r, c, -r + m - 1, 2 * r + 1);
    }
}

proof fn lemma_cnt_row_zero(flat: RgbaImage, x: int, y: int, r: int, c: int, dy: int, n: int)
    ensures
        cnt_row(flat, x, y, r, c, 0, 0, dy, n) == 0,
    decreases n,
{
    if n > 0 {
        lemma_cnt_row_zero(flat, x, y, r, c, dy, n - 1);
    }
}

/// Replace each channel of each selected pixel by the median of that channel over the
/// `(2r+1)`-square window around it (`r` is `radius` raised to at least 1; coordinates are
/// clamped to the image); unselected pixels keep their value.
pub fn median_core(flat: &RgbaImage, radius: u32, mask: Option<&GrayImage>) -> (out: RgbaImage)
    requires
        flat.wf(),
        mask_wf(mask),
        radius <= i32::MAX,
    ensures
        image_is(out, *flat, |x: int, y: int, c: int| median_expected(*flat, radius, mask_view(mask), x, y, c)),
{
    let w = flat.width;
    let h = flat.height;
    let ghost f = |x: int, y: int, c: int| median_expected(*flat, radius, mask_view(mask), x, y, c);
    if w == 0 || h == 0 {
        return RgbaImage { width: w, height: h, data: flat.data.clone() };
    }
    let r: u32 = if radius < 1 { 1 } else { radius };
    let wu = w as usize;
    let hu = h as usize;
    let ghost wi = w as int;
    let mut out: Vec<u8> = Vec::new();
    let mut y: usize = 0;
    while y < hu
        invariant
            flat.wf(), mask_wf(mask),
            wu == w, hu == h, wi == w as int, w > 0, h > 0, w == flat.width, h == flat.height,
            r as int == max_int(radius as int, 1), r <= i32::MAX,
            f == (|x: int, y: int, c: int| median_expected(*flat, radius, mask_view(mask), x, y, c)),
            y <= hu,
            out@.len() == (y * wi) * 4,
            prefix_matches(out@, wi, y * wi, f),
        decreases hu - y,
    {
        let mut x: usize = 0;
        while x < wu
            invariant
                flat.wf(), mask_wf(mask),
                wu == w, hu == h, wi == w as int, w > 0, h > 0, w == flat.width, h == flat.height,
                r as int == max_int(radius as int, 1), r <= i32::MAX,
                f == (|x: int, y: int, c: int| median_expected(*flat, radius, mask_view(mask), x, y, c)),
                y < hu,
                x <= wu,
                out@.len() == (y * wi + x) * 4,
                prefix_matches(out@, wi, y * wi + x, f),
            decreases wu - x,
        {
            if mask_selects(mask, x, y) {
                let m0 = median_channel(flat, x, y, r, 0);
                let m1 = median_channel(flat, x, y, r, 1);
                let m2 = median_channel(flat, x, y, r, 2);
                let m3 = median_channel(flat, x, y, r, 3);
                push_pixel(&mut out, m0, m1, m2, m3, Ghost(wi), Ghost(x as int), Ghost(y as int), Ghost(f));
            } else {
                let (c0, c1, c2, c3) = get_px(flat, x, y);
                push_pixel(&mut out, c0, c1, c2, c3, Ghost(wi), Ghost(x as int), Ghost(y as int), Ghost(f));
            }
            x += 1;
        }
        proof {
            lemma_row_step(wi, y as int);
        }
        y += 1;
    }
    proof {
        lemma_prefix_complete(out@, wi, h as int, f);
    }
    RgbaImage { width: w, height: h, data: out }
}

/// Intensity level (in `0..n`) of a pixel with channels `pr, pg, pb`.
pub open spec fn oil_level(pr: int, pg: int, pb: int, n: int) -> int {
    min_int(((pr + pg + pb) / 3 * n) / 256, n - 1)
}

/// Level of the window sample at offset `(dx, dy)` from `(x, y)`.
pub open spec fn oil_sample_level(flat: RgbaImage, x: int, y: int, dx: int, dy: int, n: int) -> int {
    oil_level(
        sample_at(flat, x, y, dx, dy, 0) as int,
        sample_at(flat, x, y, dx, dy, 1) as int,
        sample_at(flat, x, y, dx, dy, 2) as int,
        n,
    )
}

/// Weight a sample contributes to a bin: 1 when counting (`which == 3`), otherwise the
/// value of channel `which`.
pub open spec fn oil_weight(flat: RgbaImage, x: int, y: int, dx: int, dy: int, which: int) -> int {
    if which == 3 { 1 } else { sample_at(flat, x, y, dx, dy, which) as int }
}

/// Sum of the weights of the samples at `dx = -r .. -r + k - 1` of row `dy` that fall in bin `b`.
pub open spec fn oil_row(flat: RgbaImage, x: int, y: int, r: int, n: int, b: int, which: int, dy: int, k: int) -> int
    decreases k,
{
    if k <= 0 {
        0
    } else {
        oil_row(flat, x, y, r, n, b, which, dy, k - 1)
            + if oil_sample_level(flat, x, y, -r + k - 1, dy, n) == b { oil_weight(flat, x, y, -r + k - 1, dy, which) } else { 0 }
    }
}

/// Sum of the weights of the samples in the first `m` rows of the window that fall in bin `b`.
pub open spec fn oil_win(flat: RgbaImage, x: int, y: int, r: int, n: int, b: int, which: int, m: int) -> int
    decreases m,
{
    if m <= 0 {
        0
    } else {
        oil_win(flat, x, y, r, n, b, which, m - 1) + oil_row(flat, x, y, r, n, b, which, -r + m - 1, 2 * r + 1)
    }
}

/// Number of window samples in bin `b`.
pub open spec fn oil_count(flat: RgbaImage, x: int, y: int, r: int, n: int, b: int) -> int {
    oil_win(flat, x, y, r, n, b, 3, 2 * r + 1)
}

/// The first bin, scanning from `b`, whose count is strictly greater than every count seen
/// before it; `best` and `best_count` carry the scan state.
pub open spec fn oil_best_from(flat: RgbaImage, x: int, y: int, r: int, n: int, b: int, best: int, best_count: int) -> int
    decreases n - b,
{
    if b >= n {
        best
    } else if oil_count(flat, x, y, r, n, b) > best_count {
        oil_best_from(flat, x, y, r, n, b + 1, b, oil_count(flat, x, y, r, n, b))
    } else {
        oil_best_from(flat, x, y, r, n, b + 1, best, best_count)
    }
}

/// The most populated intensity bin (the lowest one among ties).
pub open spec fn oil_best(flat: RgbaImage, x: int, y: int, r: int, n: int) -> int {
    oil_best_from(flat, x, y, r, n, 0, 0, 0)
}

/// Channel `c` of output pixel `(x, y)` of `oil_painting_core`.
pub open spec fn oil_expected(flat: RgbaImage, radius: u32, levels: u32, mask: Option<GrayImage>, x: int, y: int, c: int) -> u8 {
    let r = clamp_int(radius as int, 1, 10);
    let n = clamp_int(levels as int, 2, 64);
    let best = oil_best(flat, x, y, r, n);
    let cnt = oil_count(flat, x, y, r, n, best);
    if !mask_allows(mask, x, y) || c == 3 {
        flat.at(x, y, c)
    } else if cnt > 0 {
        (oil_win(flat, x, y, r, n, best, c, 2 * r + 1) / cnt) as u8
    } else {
        0
    }
}

proof fn lemma_oil_row_bound(flat: RgbaImage, x: int, y: int, r: int, n: int, b: int, which: int, dy: int, k: int)
    requires
        0 <= which <= 3,
    ensures
        0 <= oil_row(flat, x, y, r, n, b, which, dy, k) <= 255 * (if k < 0 { 0 } else { k }),
    decreases k,
{
    if k > 0 {
        lemma_oil_row_bound(flat, x, y, r, n, b, which, dy, k - 1);
    }
}

pub(crate) proof fn lemma_oil_win_bound(flat: RgbaImage, x: int, y: int, r: int, n: int, b: int, which: int, m: int)
    requires
        0 <= which <= 3,
        r >= 0,
    ensures
        0 <= oil_win(flat, x, y, r, n, b, which, m) <= 255 * (if m < 0 { 0 } else { m }) * (2 * r + 1),
    decreases m,
{
    if m > 0 {
        lemma_oil_win_bound(flat, x, y, r, n, b, which, m - 1);
        lemma_oil_row_bound(flat, x, y, r, n, b, which, -r + m - 1, 2 * r + 1);
        assert(255 * (m - 1) * (2 * r + 1) + 255 * (2 * r + 1) == 255 * m * (2 * r + 1)) by (nonlinear_arith);
    }
}

/// Oil-painting colour of one selected pixel: the average colour of the most populated
/// intensity bin of its window.
#[verifier::spinoff_prover]
fn oil_pixel(flat: &RgbaImage, x: usize, y: usize, r: u32, n: u32) -> (out: (u8, u8, u8))
    requires
        flat.wf(),
        x < flat.width,
        y < flat.height,
        1 <= r <= 10,
        2 <= n <= 64,
    ensures
        ({
            let best = oil_best(*flat, x as int, y as int, r as int, n as int);
            let cnt = oil_count(*flat, x as int, y as int, r as int, n as int, best);
            &&& cnt > 0 ==> out.0 == (oil_win(*flat, x as int, y as int, r as int, n as int, best, 0, 2 * r + 1) / cnt) as u8
            &&& cnt > 0 ==> out.1 == (oil_win(*flat, x as int, y as int, r as int, n as int, best, 1, 2 * r + 1) / cnt) as u8
            &&& cnt > 0 ==> out.2 == (oil_win(*flat, x as int, y as int, r as int, n as int, best, 2, 2 * r + 1) / cnt) as u8
            &&& cnt <= 0 ==> out == (0u8, 0u8, 0u8)
        }),
{
    let ghost ri = r as int;
    let ghost ni = n as int;
    let nu = n as usize;
    let mut cnt: Vec<u32> = Vec::new();
    let mut sr: Vec<u32> = Vec::new();
    let mut sg: Vec<u32> = Vec::new();
    let mut sb: Vec<u32> = Vec::new();
    while cnt.len() < nu
        invariant
            nu == n, cnt@.len() <= nu, sr@.len() == cnt@.len(), sg@.len() == cnt@.len(), sb@.len() == cnt@.len(),
            forall|b: int| 0 <= b < cnt@.len() ==> cnt@[b] == 0 && sr@[b] == 0 && sg@[b] == 0 && sb@[b] == 0,
        decreases nu - cnt@.len(),
    {
        cnt.push(0);
        sr.push(0);
        sg.push(0);
        sb.push(0);
    }
    let side: u32 = 2 * r + 1;
    let mut dyi: u32 = 0;
    while dyi < side
        invariant
            flat.wf(), x < flat.width, y < flat.height,
            ri == r as int, ni == n as int, 1 <= r <= 10, 2 <= n <= 64, nu == n,
            side == 2 * ri + 1,
            dyi <= side,
            cnt@.len() == nu, sr@.len() == nu, sg@.len() == nu, sb@.len() == nu,
            forall|b: int| 0 <= b < ni ==> {
                &&& #[trigger] cnt@[b] == oil_win(*flat, x as int, y as int, ri, ni, b, 3, dyi as int)
                &&& sr@[b] == oil_win(*flat, x as int, y as int, ri, ni, b, 0, dyi as int)
                &&& sg@[b] == oil_win(*flat, x as int, y as int, ri, ni, b, 1, dyi as int)
                &&& sb@[b] == oil_win(*flat, x as int, y as int, ri, ni, b, 2, dyi as int)
            },
        decreases side - dyi,
    {
        let dy = dyi as i32 - r as i32;
        let sy = shifted_exec(y, dy, flat.height);
        let mut dxi: u32 = 0;
        proof {
            assert forall|b: int| 0 <= b < ni implies {
                &&& #[trigger] cnt@[b] == oil_win(*flat, x as int, y as int, ri, ni, b, 3, dyi as int) + oil_row(*flat, x as int, y as int, ri, ni, b, 3, dy as int, 0)
                &&& sr@[b] == oil_win(*flat, x as int, y as int, ri, ni, b, 0, dyi as int) + oil_row(*flat, x as int, y as int, ri, ni, b, 0, dy as int, 0)
                &&& sg@[b] == oil_win(*flat, x as int, y as int, ri, ni, b, 1, dyi as int) + oil_row(*flat, x as int, y as int, ri, ni, b, 1, dy as int, 0)
                &&& sb@[b] == oil_win(*flat, x as int, y as int, ri, ni, b, 2, dyi as int) + oil_row(*flat, x as int, y as int, ri, ni, b, 2, dy as int, 0)
            } by {
                assert(oil_row(*flat, x as int, y as int, ri, ni, b, 3, dy as int, 0) == 0);
                assert(oil_row(*flat, x as int, y as int, ri, ni, b, 0, dy as int, 0) == 0);
                assert(oil_row(*flat, x as int, y as int, ri, ni, b, 1, dy as int, 0) == 0);
                assert(oil_row(*flat, x as int, y as int, ri, ni, b, 2, dy as int, 0) == 0);
            }
        }
        while dxi < side
            invariant
                flat.wf(), x < flat.width, y < flat.height,
                ri == r as int, ni == n as int, 1 <= r <= 10, 2 <= n <= 64, nu == n,
                side == 2 * ri + 1,
                dyi < side,
                dy == dyi - ri,
                sy as int == shifted(y as int, dy as int, flat.height as int),
                sy < flat.height,
                dxi <= side,
                cnt@.len() == nu, sr@.len() == nu, sg@.len() == nu, sb@.len() == nu,
                forall|b: int| 0 <= b < ni ==> {
                    &&& #[trigger] cnt@[b] == oil_win(*flat, x as int, y as int, ri, ni, b, 3, dyi as int) + oil_row(*flat, x as int, y as int, ri, ni, b, 3, dy as int, dxi as int)
                    &&& sr@[b] == oil_win(*flat, x as int, y as int, ri, ni, b, 0, dyi as int) + oil_row(*flat, x as int, y as int, ri, ni, b, 0, dy as int, dxi as int)
                    &&& sg@[b] == oil_win(*flat, x as int, y as int, ri, ni, b, 1, dyi as int) + oil_row(*flat, x as int, y as int, ri, ni, b, 1, dy as int, dxi as int)
                    &&& sb@[b] == oil_win(*flat, x as int, y as int, ri, ni, b, 2, dyi as int) + oil_row(*flat, x as int, y as int, ri, ni, b, 2, dy as int, dxi as int)
                },
            decreases side - dxi,
        {
            let dx = dxi as i32 - r as i32;
            let sx = shifted_exec(x, dx, flat.width);
            let (pr, pg, pb, _pa) = get_px(flat, sx, sy);
            let s3 = (pr as u32 + pg as u32 + pb as u32) / 3;
            proof {
                assert(s3 * n <= 255 * 64) by (nonlinear_arith)
                    requires s3 <= 255, n <= 64;
            }
            let lvl0 = (s3 * n / 256) as usize;
            let lvl = if lvl0 < nu - 1 { lvl0 } else { nu - 1 };
            proof {
                assert(lvl as int == oil_sample_level(*flat, x as int, y as int, -ri + (dxi + 1) - 1, dy as int, ni));
                assert forall|b: int| 0 <= b < ni implies {
                    &&& #[trigger] cnt@[b] <= 255 * 21 * 21
                    &&& sr@[b] <= 255 * 21 * 21
                    &&& sg@[b] <= 255 * 21 * 21
                    &&& sb@[b] <= 255 * 21 * 21
                } by {
                    lemma_oil_win_bound(*flat, x as int, y as int, ri, ni, b, 3, dyi as int);
                    lemma_oil_win_bound(*flat, x as int, y as int, ri, ni, b, 0, dyi as int);
                    lemma_oil_win_bound(*flat, x as int, y as int, ri, ni, b, 1, dyi as int);
                    lemma_oil_win_bound(*flat, x as int, y as int, ri, ni, b, 2, dyi as int);
                    lemma_oil_row_bound(*flat, x as int, y as int, ri, ni, b, 3, dy as int, dxi as int);
                    lemma_oil_row_bound(*flat, x as int, y as int, ri, ni, b, 0, dy as int, dxi as int);
                    lemma_oil_row_bound(*flat, x as int, y as int, ri, ni, b, 1, dy as int, dxi as int);
                    lemma_oil_row_bound(*flat, x as int, y as int, ri, ni, b, 2, dy as int, dxi as int);
                    assert(255 * dyi * side + 255 * dxi <= 255 * 21 * 21) by (nonlinear_arith)
                        requires dyi < side, dxi < side, side <= 21;
                }
            }
            let ghost oc = cnt@;
            let ghost or = sr@;
            let ghost og = sg@;
            let ghost ob = sb@;
            let c0 = cnt[lvl];
            cnt.set(lvl, c0 + 1);
            let r0 = sr[lvl];
            sr.set(lvl, r0 + pr as u32);
            let g0 = sg[lvl];
            sg.set(lvl, g0 + pg as u32);
            let b0 = sb[lvl];
            sb.set(lvl, b0 + pb as u32);
            proof {
                let ghost dxn = -ri + (dxi + 1) - 1;
                assert(pr == sample_at(*flat, x as int, y as int, dxn, dy as int, 0));
                assert(pg == sample_at(*flat, x as int, y as int, dxn, dy as int, 1));
                assert(pb == sample_at(*flat, x as int, y as int, dxn, dy as int, 2));
                assert forall|b: int| 0 <= b < ni implies {
                    &&& #[trigger] cnt@[b] == oil_win(*flat, x as int, y as int, ri, ni, b, 3, dyi as int) + oil_row(*flat, x as int, y as int, ri, ni, b, 3, dy as int, dxi + 1)
                    &&& sr@[b] == oil_win(*flat, x as int, y as int, ri, ni, b, 0, dyi as int) + oil_row(*flat, x as int, y as int, ri, ni, b, 0, dy as int, dxi + 1)
                    &&& sg@[b] == oil_win(*flat, x as int, y as int, ri, ni, b, 1, dyi as int) + oil_row(*flat, x as int, y as int, ri, ni, b, 1, dy as int, dxi + 1)
                    &&& sb@[b] == oil_win(*flat, x as int, y as int, ri, ni, b, 2, dyi as int) + oil_row(*flat, x as int, y as int, ri, ni, b, 2, dy as int, dxi + 1)
                } by {
                    assert(oc[b] == oil_win(*flat, x as int, y as int, ri, ni, b, 3, dyi as int) + oil_row(*flat, x as int, y as int, ri, ni, b, 3, dy as int, dxi as int));
                    assert(oil_row(*flat, x as int, y as int, ri, ni, b, 3, dy as int, dxi + 1) == oil_row(*flat, x as int, y as int, ri, ni, b, 3, dy as int, dxi as int)
                        + if oil_sample_level(*flat, x as int, y as int, dxn, dy as int, ni) == b { 1int } else { 0int });
                    assert(oil_row(*flat, x as int, y as int, ri, ni, b, 0, dy as int, dxi + 1) == oil_row(*flat, x as int, y as int, ri, ni, b, 0, dy as int, dxi as int)
                        + if oil_sample_level(*flat, x as int, y as int, dxn, dy as int, ni) == b { pr as int } else { 0int });
                    assert(oil_row(*flat, x as int, y as int, ri, ni, b, 1, dy as int, dxi + 1) == oil_row(*flat, x as int, y as int, ri, ni, b, 1, dy as int, dxi as int)
                        + if oil_sample_level(*flat, x as int, y as int, dxn, dy as int, ni) == b { pg as int } else { 0int });
                    assert(oil_row(*flat, x as int, y as int, ri, ni, b, 2, dy as int, dxi + 1) == oil_row(*flat, x as int, y as int, ri, ni, b, 2, dy as int, dxi as int)
                        + if oil_sample_level(*flat, x as int, y as int, dxn, dy as int, ni) == b { pb as int } else { 0int });
                }
            }
            dxi += 1;
        }
        proof {
            assert(dy as int == -ri + (dyi + 1) - 1);
        }
        dyi += 1;
    }
    // Most populated bin, lowest index among ties.
    let mut max_count: u32 = 0;
    let mut max_idx: usize = 0;
    let mut b: usize = 0;
    while b < nu
        invariant
            flat.wf(),
            ri == r as int, ni == n as int, 1 <= r <= 10, 2 <= n <= 64, nu == n,
            side == 2 * ri + 1,
            b <= nu,
            max_idx < nu,
            cnt@.len() == nu, sr@.len() == nu, sg@.len() == nu, sb@.len() == nu,
            forall|bb: int| 0 <= bb < ni ==> {
                &&& #[trigger] cnt@[bb] == oil_count(*flat, x as int, y as int, ri, ni, bb)
                &&& sr@[bb] == oil_win(*flat, x as int, y as int, ri, ni, bb, 0, side as int)
                &&& sg@[bb] == oil_win(*flat, x as int, y as int, ri, ni, bb, 1, side as int)
                &&& sb@[bb] == oil_win(*flat, x as int, y as int, ri, ni, bb, 2, side as int)
            },
            max_count == cnt@[max_idx as int] || (max_count == 0 && max_idx == 0),
            forall|bb: int| 0 <= bb < b ==> #[trigger] cnt@[bb] <= max_count,
            oil_best(*flat, x as int, y as int, ri, ni) == oil_best_from(*flat, x as int, y as int, ri, ni, b as int, max_idx as int, max_count as int),
        decreases nu - b,
    {
        if cnt[b] > max_count {
            max_count = cnt[b];
            max_idx = b;
        }
        b += 1;
    }
    if max_count == 0 {
        proof {
            assert(oil_best(*flat, x as int, y as int, ri, ni) == max_idx);
        }
        return (0, 0, 0);
    }
    proof {
        assert(oil_best(*flat, x as int, y as int, ri, ni) == max_idx);
        lemma_oil_win_bound(*flat, x as int, y as int, ri, ni, max_idx as int, 0, side as int);
        lemma_oil_win_bound(*flat, x as int, y as int, ri, ni, max_idx as int, 1, side as int);
        lemma_oil_win_bound(*flat, x as int, y as int, ri, ni, max_idx as int, 2, side as int);
    }
    let ar = sr[max_idx] / max_count;
    let ag = sg[max_idx] / max_count;
    let ab = sb[max_idx] / max_count;
    (ar as u8, ag as u8, ab as u8)
}

/// Oil-painting filter: each selected pixel takes the average colour of the most
/// populated intensity bin (`levels` bins, clamped to 2..=64) of its clamped window of
/// radius `radius` (clamped to 1..=10); alpha and unselected pixels are kept.
pub fn oil_painting_core(flat: &RgbaImage, radius: u32, levels: u32, mask: Option<&GrayImage>) -> (out: RgbaImage)
    requires
        flat.wf(),
        mask_wf(mask),
    ensures
        image_is(out, *flat, |x: int, y: int, c: int| oil_expected(*flat, radius, levels, mask_view(mask), x, y, c)),
{
    let w = flat.width;
    let h = flat.height;
    let ghost f = |x: int, y: int, c: int| oil_expected(*flat, radius, levels, mask_view(mask), x, y, c);
    if w == 0 || h == 0 {
        return RgbaImage { width: w, height: h, data: flat.data.clone() };
    }
    let r: u32 = if radius < 1 { 1 } else if radius > 10 { 10 } else { radius };
    let n: u32 = if levels < 2 { 2 } else if levels > 64 { 64 } else { levels };
    let wu = w as usize;
    let hu = h as usize;
    let ghost wi = w as int;
    let mut out: Vec<u8> = Vec::new();
    let mut y: usize = 0;
    while y < hu
        invariant
            flat.wf(), mask_wf(mask),
            wu == w, hu == h, wi == w as int, w > 0, h > 0, w == flat.width, h == flat.height,
            r as int == clamp_int(radius as int, 1, 10), n as int == clamp_int(levels as int, 2, 64),
            f == (|x: int, y: int, c: int| oil_expected(*flat, radius, levels, mask_view(mask), x, y, c)),
            y <= hu,
            out@.len() == (y * wi) * 4,
            prefix_matches(out@, wi, y * wi, f),
        decreases hu - y,
    {
        let mut x: usize = 0;
        while x < wu
            invariant
                flat.wf(), mask_wf(mask),
                wu == w, hu == h, wi == w as int, w > 0, h > 0, w == flat.width, h == flat.height,
                r as int == clamp_int(radius as int, 1, 10), n as int == clamp_int(levels as int, 2, 64),
                f == (|x: int, y: int, c: int| oil_expected(*flat, radius, levels, mask_view(mask), x, y, c)),
                y < hu,
                x <= wu,
                out@.len() == (y * wi + x) * 4,
                prefix_matches(out@, wi, y * wi + x, f),
            decreases wu - x,
        {
            let (c0, c1, c2, c3) = get_px(flat, x, y);
            if mask_selects(mask, x, y) {
                let (pr, pg, pb) = oil_pixel(flat, x, y, r, n);
                push_pixel(&mut out, pr, pg, pb, c3, Ghost(wi), Ghost(x as int), Ghost(y as int), Ghost(f));
            } else {
                push_pixel(&mut out, c0, c1, c2, c3, Ghost(wi), Ghost(x as int), Ghost(y as int), Ghost(f));
            }
            x += 1;
        }
        proof {
            lemma_row_step(wi, y as int);
        }
        y += 1;
    }
    proof {
        lemma_prefix_complete(out@, wi, h as int, f);
    }
    RgbaImage { width: w, height: h, data: out }
}

/// Pixelate layer `layer_idx` (see `pixelate_core`).
/// Nothing changes when `layer_idx` names no layer.
pub fn pixelate(state: &mut CanvasState, layer_idx: usize, block_size: u32)
    requires
        old(state).wf(),
    ensures
        final(state).wf(),
        layer_idx >= old(state).layers@.len() ==> *final(state) == *old(state),
        layer_idx < old(state).layers@.len() ==> {
            &&& CanvasState::replaced_pixels(*old(state), *final(state), layer_idx as int, final(state).layers@[layer_idx as int].pixels)
            &&& image_is(final(state).layers@[layer_idx as int].pixels, old(state).layers@[layer_idx as int].pixels,
                |x: int, y: int, c: int| pixelate_expected(old(state).layers@[layer_idx as int].pixels, block_size, old(state).selection_mask, x, y, c))
        },
{
    if layer_idx >= state.layers.len() {
        return;
    }
    proof {
        assert(old(state).layers@[layer_idx as int].fits(state.width, state.height));
    }
    let result = pixelate_core(&state.layers[layer_idx].pixels, block_size, state.mask_ref());
    commit_to_layer(state, layer_idx, result);
    proof {
        assert(final(state).layers@[layer_idx as int].fits(state.width, state.height));
        assert forall|i: int| 0 <= i < state.layers@.len() implies #[trigger] state.layers@[i].fits(state.width, state.height) by {
            if i != layer_idx {
                assert(state.layers@[i] == old(state).layers@[i]);
            }
        }
    }
}

/// Pixelate `original_flat` (see `pixelate_core`). The result replaces the pixels of
/// layer `layer_idx`; nothing changes when `layer_idx` names no layer.
pub fn pixelate_from_flat(state: &mut CanvasState, layer_idx: usize, block_size: u32, original_flat: &RgbaImage)
    requires
        old(state).wf(),
        original_flat.wf(),
    ensures
        original_flat.width == old(state).width && original_flat.height == old(state).height ==> final(state).wf(),
        layer_idx >= old(state).layers@.len() ==> *final(state) == *old(state),
        layer_idx < old(state).layers@.len() ==> {
            &&& CanvasState::replaced_pixels(*old(state), *final(state), layer_idx as int, final(state).layers@[layer_idx as int].pixels)
            &&& image_is(final(state).layers@[layer_idx as int].pixels, *original_flat,
                |x: int, y: int, c: int| pixelate_expected(*original_flat, block_size, old(state).selection_mask, x, y, c))
        },
{
    let result = pixelate_core(original_flat, block_size, state.mask_ref());
    commit_to_layer(state, layer_idx, result);
    proof {
        if layer_idx < old(state).layers@.len() && original_flat.width == old(state).width && original_flat.height == old(state).height {
            assert forall|i: int| 0 <= i < state.layers@.len() implies #[trigger] state.layers@[i].fits(state.width, state.height) by {
                if i != layer_idx {
                    assert(state.layers@[i] == old(state).layers@[i]);
                }
            }
        }
    }
}

/// Displace the colour channels of layer `layer_idx` (see `rgb_displace_core`).
/// Nothing changes when `layer_idx` names no layer.
pub fn rgb_displace(state: &mut CanvasState, layer_idx: usize, r_offset: (i32, i32), g_offset: (i32, i32), b_offset: (i32, i32))
    requires
        old(state).wf(),
    ensures
        final(state).wf(),
        layer_idx >= old(state).layers@.len() ==> *final(state) == *old(state),
        layer_idx < old(state).layers@.len() ==> {
            &&& CanvasState::replaced_pixels(*old(state), *final(state), layer_idx as int, final(state).layers@[layer_idx as int].pixels)
            &&& image_is(final(state).layers@[layer_idx as int].pixels, old(state).layers@[layer_idx as int].pixels,
                |x: int, y: int, c: int| rgb_displace_expected(old(state).layers@[layer_idx as int].pixels, r_offset, g_offset, b_offset, old(state).selection_mask, x, y, c))
        },
{
    if layer_idx >= state.layers.len() {
        return;
    }
    proof {
        assert(old(state).layers@[layer_idx as int].fits(state.width, state.height));
    }
    let result = rgb_displace_core(&state.layers[layer_idx].pixels, r_offset, g_offset, b_offset, state.mask_ref());
    commit_to_layer(state, layer_idx, result);
    proof {
        assert(final(state).layers@[layer_idx as int].fits(state.width, state.height));
        assert forall|i: int| 0 <= i < state.layers@.len() implies #[trigger] state.layers@[i].fits(state.width, state.height) by {
            if i != layer_idx {
                assert(state.layers@[i] == old(state).layers@[i]);
            }
        }
    }
}

/// Displace the colour channels of `original_flat` (see `rgb_displace_core`). The result replaces the pixels of
/// layer `layer_idx`; nothing changes when `layer_idx` names no layer.
pub fn rgb_displace_from_flat(state: &mut CanvasState, layer_idx: usize, r_offset: (i32, i32), g_offset: (i32, i32), b_offset: (i32, i32), original_flat: &RgbaImage)
    requires
        old(state).wf(),
        original_flat.wf(),
    ensures
        original_flat.width == old(state).width && original_flat.height == old(state).height ==> final(state).wf(),
        layer_idx >= old(state).layers@.len() ==> *final(state) == *old(state),
        layer_idx < old(state).layers@.len() ==> {
            &&& CanvasState::replaced_pixels(*old(state), *final(state), layer_idx as int, final(state).layers@[layer_idx as int].pixels)
            &&& image_is(final(state).layers@[layer_idx as int].pixels, *original_flat,
                |x: int, y: int, c: int| rgb_displace_expected(*original_flat, r_offset, g_offset, b_offset, old(state).selection_mask, x, y, c))
        },
{
    let result = rgb_displace_core(original_flat, r_offset, g_offset, b_offset, state.mask_ref());
    commit_to_layer(state, layer_idx, result);
    proof {
        if layer_idx < old(state).layers@.len() && original_flat.width == old(state).width && original_flat.height == old(state).height {
            assert forall|i: int| 0 <= i < state.layers@.len() implies #[trigger] state.layers@[i].fits(state.width, state.height) by {
                if i != layer_idx {
                    assert(state.layers@[i] == old(state).layers@[i]);
                }
            }
        }
    }
}

/// Median-filter layer `layer_idx` (see `median_core`).
/// Nothing changes when `layer_idx` names no layer.
pub fn median_filter(state: &mut CanvasState, layer_idx: usize, radius: u32)
    requires
        old(state).wf(),
        radius <= i32::MAX,
    ensures
        final(state).wf(),
        layer_idx >= old(state).layers@.len() ==> *final(state) == *old(state),
        layer_idx < old(state).layers@.len() ==> {
            &&& CanvasState::replaced_pixels(*old(state), *final(state), layer_idx as int, final(state).layers@[layer_idx as int].pixels)
            &&& image_is(final(state).layers@[layer_idx as int].pixels, old(state).layers@[layer_idx as int].pixels,
                |x: int, y: int, c: int| median_expected(old(state).layers@[layer_idx as int].pixels, radius, old(state).selection_mask, x, y, c))
        },
{
    if layer_idx >= state.layers.len() {
        return;
    }
    proof {
        assert(old(state).layers@[layer_idx as int].fits(state.width, state.height));
    }
    let result = median_core(&state.layers[layer_idx].pixels, radius, state.mask_ref());
    commit_to_layer(state, layer_idx, result);
    proof {
        assert(final(state).layers@[layer_idx as int].fits(state.width, state.height));
        assert forall|i: int| 0 <= i < state.layers@.len() implies #[trigger] state.layers@[i].fits(state.width, state.height) by {
            if i != layer_idx {
                assert(state.layers@[i] == old(state).layers@[i]);
            }
        }
    }
}

/// Median-filter `original_flat` (see `median_core`). The result replaces the pixels of
/// layer `layer_idx`; nothing changes when `layer_idx` names no layer.
pub fn median_filter_from_flat(state: &mut CanvasState, layer_idx: usize, radius: u32, original_flat: &RgbaImage)
    requires
        old(state).wf(),
        original_flat.wf(),
        radius <= i32::MAX,
    ensures
        original_flat.width == old(state).width && original_flat.height == old(state).height ==> final(state).wf(),
        layer_idx >= old(state).layers@.len() ==> *final(state) == *old(state),
        layer_idx < old(state).layers@.len() ==> {
            &&& CanvasState::replaced_pixels(*old(state), *final(state), layer_idx as int, final(state).layers@[layer_idx as int].pixels)
            &&& image_is(final(state).layers@[layer_idx as int].pixels, *original_flat,
                |x: int, y: int, c: int| median_expected(*original_flat, radius, old(state).selection_mask, x, y, c))
        },
{
    let result = median_core(original_flat, radius, state.mask_ref());
    commit_to_layer(state, layer_idx, result);
    proof {
        if layer_idx < old(state).layers@.len() && original_flat.width == old(state).width && original_flat.height == old(state).height {
            assert forall|i: int| 0 <= i < state.layers@.len() implies #[trigger] state.layers@[i].fits(state.width, state.height) by {
                if i != layer_idx {
                    assert(state.layers@[i] == old(state).layers@[i]);
                }
            }
        }
    }
}

/// Paint a border on layer `layer_idx` (see `canvas_border_core`).
/// Nothing changes when `layer_idx` names no layer.
pub fn canvas_border(state: &mut CanvasState, layer_idx: usize, width: u32, color: [u8; 4])
    requires
        old(state).wf(),
    ensures
        final(state).wf(),
        layer_idx >= old(state).layers@.len() ==> *final(state) == *old(state),
        layer_idx < old(state).layers@.len() ==> {
            &&& CanvasState::replaced_pixels(*old(state), *final(state), layer_idx as int, final(state).layers@[layer_idx as int].pixels)
            &&& image_is(final(state).layers@[layer_idx as int].pixels, old(state).layers@[layer_idx as int].pixels,
                |x: int, y: int, c: int| canvas_border_expected(old(state).layers@[layer_idx as int].pixels, width, color, old(state).selection_mask, x, y, c))
        },
{
    if layer_idx >= state.layers.len() {
        return;
    }
    proof {
        assert(old(state).layers@[layer_idx as int].fits(state.width, state.height));
    }
    let result = canvas_border_core(&state.layers[layer_idx].pixels, width, color, state.mask_ref());
    commit_to_layer(state, layer_idx, result);
    proof {
        assert(final(state).layers@[layer_idx as int].fits(state.width, state.height));
        assert forall|i: int| 0 <= i < state.layers@.len() implies #[trigger] state.layers@[i].fits(state.width, state.height) by {
            if i != layer_idx {
                assert(state.layers@[i] == old(state).layers@[i]);
            }
        }
    }
}

/// Paint a border on `original_flat` (see `canvas_border_core`). The result replaces the pixels of
/// layer `layer_idx`; nothing changes when `layer_idx` names no layer.
pub fn canvas_border_from_flat(state: &mut CanvasState, layer_idx: usize, width: u32, color: [u8; 4], original_flat: &RgbaImage)
    requires
        old(state).wf(),
        original_flat.wf(),
    ensures
        original_flat.width == old(state).width && original_flat.height == old(state).height ==> final(state).wf(),
        layer_idx >= old(state).layers@.len() ==> *final(state) == *old(state),
        layer_idx < old(state).layers@.len() ==> {
            &&& CanvasState::replaced_pixels(*old(state), *final(state), layer_idx as int, final(state).layers@[layer_idx as int].pixels)
            &&& image_is(final(state).layers@[layer_idx as int].pixels, *original_flat,
                |x: int, y: int, c: int| canvas_border_expected(*original_flat, width, color, old(state).selection_mask, x, y, c))
        },
{
    let result = canvas_border_core(original_flat, width, color, state.mask_ref());
    commit_to_layer(state, layer_idx, result);
    proof {
        if layer_idx < old(state).layers@.len() && original_flat.width == old(state).width && original_flat.height == old(state).height {
            assert forall|i: int| 0 <= i < state.layers@.len() implies #[trigger] state.layers@[i].fits(state.width, state.height) by {
                if i != layer_idx {
                    assert(state.layers@[i] == old(state).layers@[i]);
                }
            }
        }
    }
}

/// Apply the oil-painting filter to layer `layer_idx` (see `oil_painting_core`).
/// Nothing changes when `layer_idx` names no layer.
pub fn oil_painting(state: &mut CanvasState, layer_idx: usize, radius: u32, levels: u32)
    requires
        old(state).wf(),
    ensures
        final(state).wf(),
        layer_idx >= old(state).layers@.len() ==> *final(state) == *old(state),
        layer_idx < old(state).layers@.len() ==> {
            &&& CanvasState::replaced_pixels(*old(state), *final(state), layer_idx as int, final(state).layers@[layer_idx as int].pixels)
            &&& image_is(final(state).layers@[layer_idx as int].pixels, old(state).layers@[layer_idx as int].pixels,
                |x: int, y: int, c: int| oil_expected(old(state).layers@[layer_idx as int].pixels, radius, levels, old(state).selection_mask, x, y, c))
        },
{
    if layer_idx >= state.layers.len() {
        return;
    }
    proof {
        assert(old(state).layers@[layer_idx as int].fits(state.width, state.height));
    }
    let result = oil_painting_core(&state.layers[layer_idx].pixels, radius, levels, state.mask_ref());
    commit_to_layer(state, layer_idx, result);
    proof {
        assert(final(state).layers@[layer_idx as int].fits(state.width, state.height));
        assert forall|i: int| 0 <= i < state.layers@.len() implies #[trigger] state.layers@[i].fits(state.width, state.height) by {
            if i != layer_idx {
                assert(state.layers@[i] == old(state).layers@[i]);
            }
        }
    }
}

/// Apply the oil-painting filter to `original_flat` (see `oil_painting_core`). The result replaces the pixels of
/// layer `layer_idx`; nothing changes when `layer_idx` names no layer.
pub fn oil_painting_from_flat(state: &mut CanvasState, layer_idx: usize, radius: u32, levels: u32, original_flat: &RgbaImage)
    requires
        old(state).wf(),
        original_flat.wf(),
    ensures
        original_flat.width == old(state).width && original_flat.height == old(state).height ==> final(state).wf(),
        layer_idx >= old(state).layers@.len() ==> *final(state) == *old(state),
        layer_idx < old(state).layers@.len() ==> {
            &&& CanvasState::replaced_pixels(*old(state), *final(state), layer_idx as int, final(state).layers@[layer_idx as int].pixels)
            &&& image_is(final(state).layers@[layer_idx as int].pixels, *original_flat,
                |x: int, y: int, c: int| oil_expected(*original_flat, radius, levels, old(state).selection_mask, x, y, c))
        },
{
    let result = oil_painting_core(original_flat, radius, levels, state.mask_ref());
    commit_to_layer(state, layer_idx, result);
    proof {
        if layer_idx < old(state).layers@.len() && original_flat.width == old(state).width && original_flat.height == old(state).height {
            assert forall|i: int| 0 <= i < state.layers@.len() implies #[trigger] state.layers@[i].fits(state.width, state.height) by {
                if i != layer_idx {
                    assert(state.layers@[i] == old(state).layers@[i]);
                }
            }
        }
    }
}
/// One mixing round of the coordinate hash: multiply by `k` modulo 2^32, then fold the
/// bits from `s` on back into the low bits.
pub open spec fn mix_round(x: u32, k: u32, s: u32) -> u32 {
    let m = ((x as nat * k as nat) % 0x1_0000_0000nat) as u32;
    m ^ (m >> s)
}

/// The integer hash behind the noise effects: three mixing rounds.
pub open spec fn hash_mix(x: u32) -> u32 {
    mix_round(mix_round(mix_round(x, 0x9E3779B9, 16), 0x85EBCA6B, 13), 0xC2B2AE35, 16)
}

/// The integer hash behind the noise effects (see `hash_mix`).
pub fn hash_u32(x: u32) -> (r: u32)
    ensures
        r == hash_mix(x),
{
    let mut x = x.wrapping_mul(0x9E3779B9);
    x ^= x >> 16;
    x = x.wrapping_mul(0x85EBCA6B);
    x ^= x >> 13;
    x = x.wrapping_mul(0xC2B2AE35);
    x ^= x >> 16;
    x
}

/// Two images that both hold, pixel by pixel, what `f` says of `flat` are equal.
pub proof fn lemma_image_is_unique(a: RgbaImage, b: RgbaImage, flat: RgbaImage, f: spec_fn(int, int, int) -> u8)
    requires
        image_is(a, flat, f),
        image_is(b, flat, f),
    ensures
        a.width == b.width,
        a.height == b.height,
        a.data@ == b.data@,
{
    crate::raster::lemma_same_pixels_same_data(a, b);
}

/// The block centre of a position lies on the image, and is its own block centre.
proof fn lemma_block_center_fixed(v: int, bs: int, limit: int)
    requires
        0 <= v < limit,
        bs >= 2,
    ensures
        0 <= block_center(v, bs, limit) < limit,
        block_center(block_center(v, bs, limit), bs, limit) == block_center(v, bs, limit),
{
    let q = v / bs;
    let b0 = q * bs;
    assert(0 <= b0 <= v) by (nonlinear_arith)
        requires q == v / bs, b0 == q * bs, bs >= 2, 0 <= v;
    let c = block_center(v, bs, limit);
    assert(b0 <= c < b0 + bs);
    vstd::arithmetic::div_mod::lemma_fundamental_div_mod_converse(c, bs, q, c - b0);
}

/// Pixelating a pixelated image again, with the same block size and selection, changes
/// nothing.
pub proof fn lemma_pixelate_idempotent(flat: RgbaImage, p: RgbaImage, q: RgbaImage, block_size: u32, mask: Option<GrayImage>)
    requires
        flat.wf(),
        image_is(p, flat, |x: int, y: int, c: int| pixelate_expected(flat, block_size, mask, x, y, c)),
        image_is(q, p, |x: int, y: int, c: int| pixelate_expected(p, block_size, mask, x, y, c)),
    ensures
        q.width == p.width,
        q.height == p.height,
        q.data@ == p.data@,
{
    let bs = max_int(block_size as int, 2);
    assert forall|x: int, y: int, c: int| 0 <= x < q.width && 0 <= y < q.height && 0 <= c < 4 implies
        #[trigger] q.at(x, y, c) == p.at(x, y, c) by {
        lemma_block_center_fixed(x, bs, flat.width as int);
        lemma_block_center_fixed(y, bs, flat.height as int);
        let cx = block_center(x, bs, flat.width as int);
        let cy = block_center(y, bs, flat.height as int);
        assert(q.at(x, y, c) == pixelate_expected(p, block_size, mask, x, y, c));
        assert(p.at(cx, cy, c) == pixelate_expected(flat, block_size, mask, cx, cy, c));
        assert(p.at(x, y, c) == pixelate_expected(flat, block_size, mask, x, y, c));
    }
    crate::raster::lemma_same_pixels_same_data(q, p);
}

/// Every pixel of `flat` has the colour `col`.
pub open spec fn uniform(flat: RgbaImage, col: Seq<u8>) -> bool {
    &&& col.len() == 4
    &&& forall|x: int, y: int, c: int| 0 <= x < flat.width && 0 <= y < flat.height && 0 <= c < 4
        ==> #[trigger] flat.at(x, y, c) == col[c]
}

/// What a sample of colour `col` adds to a bin: 1 when counting, else its channel.
pub open spec fn uniform_weight(col: Seq<u8>, which: int) -> int {
    if which == 3 { 1 } else { col[which] as int }
}

proof fn lemma_uniform_sample(flat: RgbaImage, col: Seq<u8>, x: int, y: int, dx: int, dy: int, c: int)
    requires
        uniform(flat, col),
        flat.width > 0,
        flat.height > 0,
        0 <= c < 4,
    ensures
        sample_at(flat, x, y, dx, dy, c) == col[c],
{
    let sx = shifted(x, dx, flat.width as int);
    let sy = shifted(y, dy, flat.height as int);
    assert(flat.at(sx, sy, c) == col[c]);
}

proof fn lemma_uniform_row(flat: RgbaImage, col: Seq<u8>, x: int, y: int, r: int, n: int, b: int, which: int, dy: int, k: int)
    requires
        uniform(flat, col),
        flat.width > 0,
        flat.height > 0,
        0 <= which < 4,
        0 <= k,
    ensures
        oil_row(flat, x, y, r, n, b, which, dy, k)
            == if b == oil_level(col[0] as int, col[1] as int, col[2] as int, n) { k * uniform_weight(col, which) } else { 0 },
    decreases k,
{
    if k > 0 {
        lemma_uniform_row(flat, col, x, y, r, n, b, which, dy, k - 1);
        lemma_uniform_sample(flat, col, x, y, -r + k - 1, dy, 0);
        lemma_uniform_sample(flat, col, x, y, -r + k - 1, dy, 1);
        lemma_uniform_sample(flat, col, x, y, -r + k - 1, dy, 2);
        if which < 3 {
            lemma_uniform_sample(flat, col, x, y, -r + k - 1, dy, which);
        }
        let w = uniform_weight(col, which);
        assert((k - 1) * w + w == k * w) by (nonlinear_arith);
    }
}

proof fn lemma_uniform_win(flat: RgbaImage, col: Seq<u8>, x: int, y: int, r: int, n: int, b: int, which: int, m: int)
    requires
        uniform(flat, col),
        flat.width > 0,
        flat.height > 0,
        0 <= which < 4,
        0 <= r,
        0 <= m,
    ensures
        oil_win(flat, x, y, r, n, b, which, m)
            == if b == oil_level(col[0] as int, col[1] as int, col[2] as int, n) { m * ((2 * r + 1) * uniform_weight(col, which)) } else { 0 },
    decreases m,
{
    if m > 0 {
        lemma_uniform_win(flat, col, x, y, r, n, b, which, m - 1);
        lemma_uniform_row(flat, col, x, y, r, n, b, which, -r + m - 1, 2 * r + 1);
        let t = (2 * r + 1) * uniform_weight(col, which);
        assert((m - 1) * t + t == m * t) by (nonlinear_arith);
    }
}

proof fn lemma_uniform_best_from(flat: RgbaImage, col: Seq<u8>, x: int, y: int, r: int, n: int, b: int, best: int, best_count: int)
    requires
        uniform(flat, col),
        flat.width > 0,
        flat.height > 0,
        0 <= r,
        0 <= b,
        ({
            let lv = oil_level(col[0] as int, col[1] as int, col[2] as int, n);
            &&& 0 <= lv < n
            &&& b <= lv ==> best_count == 0
            &&& b > lv ==> best == lv && best_count == (2 * r + 1) * (2 * r + 1)
        }),
    ensures
        oil_best_from(flat, x, y, r, n, b, best, best_count) == oil_level(col[0] as int, col[1] as int, col[2] as int, n),
    decreases n - b,
{
    let lv = oil_level(col[0] as int, col[1] as int, col[2] as int, n);
    if b < n {
        lemma_uniform_win(flat, col, x, y, r, n, b, 3, 2 * r + 1);
        assert((2 * r + 1) * ((2 * r + 1) * 1) == (2 * r + 1) * (2 * r + 1)) by (nonlinear_arith);
        assert((2 * r + 1) * (2 * r + 1) > 0) by (nonlinear_arith)
            requires r >= 0;
        if b == lv {
            lemma_uniform_best_from(flat, col, x, y, r, n, b + 1, b, oil_count(flat, x, y, r, n, b));
        } else {
            lemma_uniform_best_from(flat, col, x, y, r, n, b + 1, best, best_count);
        }
    }
}

/// The oil-painting filter leaves an image of a single colour as it is.
pub proof fn lemma_oil_uniform_unchanged(flat: RgbaImage, col: Seq<u8>, out: RgbaImage, radius: u32, levels: u32, mask: Option<GrayImage>)
    requires
        flat.wf(),
        uniform(flat, col),
        image_is(out, flat, |x: int, y: int, c: int| oil_expected(flat, radius, levels, mask, x, y, c)),
    ensures
        out.width == flat.width,
        out.height == flat.height,
        out.data@ == flat.data@,
{
    let r = clamp_int(radius as int, 1, 10);
    let n = clamp_int(levels as int, 2, 64);
    let lv = oil_level(col[0] as int, col[1] as int, col[2] as int, n);
    assert(0 <= lv < n) by {
        let s = col[0] as int + col[1] as int + col[2] as int;
        assert(0 <= (s / 3 * n) / 256) by (nonlinear_arith)
            requires 0 <= s, n >= 2;
    }
    assert forall|x: int, y: int, c: int| 0 <= x < out.width && 0 <= y < out.height && 0 <= c < 4 implies
        #[trigger] out.at(x, y, c) == flat.at(x, y, c) by {
        assert(out.at(x, y, c) == oil_expected(flat, radius, levels, mask, x, y, c));
        if mask_allows(mask, x, y) && c < 3 {
            lemma_uniform_best_from(flat, col, x, y, r, n, 0, 0, 0);
            lemma_uniform_win(flat, col, x, y, r, n, lv, 3, 2 * r + 1);
            lemma_uniform_win(flat, col, x, y, r, n, lv, c, 2 * r + 1);
            let k = (2 * r + 1) * (2 * r + 1);
            let v = col[c] as int;
            assert((2 * r + 1) * ((2 * r + 1) * 1) == k) by (nonlinear_arith)
                requires k == (2 * r + 1) * (2 * r + 1);
            assert((2 * r + 1) * ((2 * r + 1) * v) == k * v) by (nonlinear_arith)
                requires k == (2 * r + 1) * (2 * r + 1);
            assert(k > 0) by (nonlinear_arith)
                requires r >= 1, k == (2 * r + 1) * (2 * r + 1);
            assert((k * v) / k == v) by (nonlinear_arith)
                requires k > 0;
            assert(flat.at(x, y, c) == col[c]);
        }
    }
    crate::raster::lemma_same_pixels_same_data(out, flat);
}

/// Two images of the same size holding the same bytes.
pub open spec fn same_pixels(a: RgbaImage, b: RgbaImage) -> bool {
    a.width == b.width && a.height == b.height && a.data@ == b.data@
}

proof fn lemma_oil_row_cong(a: RgbaImage, b: RgbaImage, x: int, y: int, r: int, n: int, bin: int, which: int, dy: int, k: int)
    requires
        same_pixels(a, b),
    ensures
        oil_row(a, x, y, r, n, bin, which, dy, k) == oil_row(b, x, y, r, n, bin, which, dy, k),
    decreases k,
{
    if k > 0 {
        lemma_oil_row_cong(a, b, x, y, r, n, bin, which, dy, k - 1);
    }
}

proof fn lemma_oil_win_cong(a: RgbaImage, b: RgbaImage, x: int, y: int, r: int, n: int, bin: int, which: int, m: int)
    requires
        same_pixels(a, b),
    ensures
        oil_win(a, x, y, r, n, bin, which, m) == oil_win(b, x, y, r, n, bin, which, m),
    decreases m,
{
    if m > 0 {
        lemma_oil_win_cong(a, b, x, y, r, n, bin, which, m - 1);
        lemma_oil_row_cong(a, b, x, y, r, n, bin, which, -r + m - 1, 2 * r + 1);
    }
}

proof fn lemma_oil_best_cong(a: RgbaImage, b: RgbaImage, x: int, y: int, r: int, n: int, bin: int, best: int, best_count: int)
    requires
        same_pixels(a, b),
    ensures
        oil_best_from(a, x, y, r, n, bin, best, best_count) == oil_best_from(b, x, y, r, n, bin, best, best_count),
    decreases n - bin,
{
    if bin < n {
        lemma_oil_win_cong(a, b, x, y, r, n, bin, 3, 2 * r + 1);
        lemma_oil_best_cong(a, b, x, y, r, n, bin + 1, bin, oil_count(a, x, y, r, n, bin));
        lemma_oil_best_cong(a, b, x, y, r, n, bin + 1, best, best_count);
    }
}

/// The oil-painting result depends only on the size and bytes of the image.
proof fn lemma_oil_expected_cong(a: RgbaImage, b: RgbaImage, radius: u32, levels: u32, mask: Option<GrayImage>, x: int, y: int, c: int)
    requires
        same_pixels(a, b),
    ensures
        oil_expected(a, radius, levels, mask, x, y, c) == oil_expected(b, radius, levels, mask, x, y, c),
{
    let r = clamp_int(radius as int, 1, 10);
    let n = clamp_int(levels as int, 2, 64);
    lemma_oil_best_cong(a, b, x, y, r, n, 0, 0, 0);
    let best = oil_best(a, x, y, r, n);
    lemma_oil_win_cong(a, b, x, y, r, n, best, 3, 2 * r + 1);
    lemma_oil_win_cong(a, b, x, y, r, n, best, c, 2 * r + 1);
}

/// Oil painting a layer in place gives the layer what `oil_painting_core` returns for its
/// pixels and the selection, and leaves every other layer as it was.
pub proof fn lemma_oil_layer_is_core(s0: CanvasState, s1: CanvasState, out: RgbaImage, layer_idx: int, radius: u32, levels: u32)
    requires
        0 <= layer_idx < s0.layers@.len(),
        CanvasState::replaced_pixels(s0, s1, layer_idx, s1.layers@[layer_idx].pixels),
        image_is(s1.layers@[layer_idx].pixels, s0.layers@[layer_idx].pixels,
            |x: int, y: int, c: int| oil_expected(s0.layers@[layer_idx].pixels, radius, levels, s0.selection_mask, x, y, c)),
        image_is(out, s0.layers@[layer_idx].pixels,
            |x: int, y: int, c: int| oil_expected(s0.layers@[layer_idx].pixels, radius, levels, s0.selection_mask, x, y, c)),
    ensures
        same_pixels(s1.layers@[layer_idx].pixels, out),
        s1.layers@ == s0.layers@.update(layer_idx, s0.layers@[layer_idx].with_pixels(s1.layers@[layer_idx].pixels)),
{
    lemma_image_is_unique(s1.layers@[layer_idx].pixels, out, s0.layers@[layer_idx].pixels,
        |x: int, y: int, c: int| oil_expected(s0.layers@[layer_idx].pixels, radius, levels, s0.selection_mask, x, y, c));
}

/// Oil painting from a flat copy that holds the layer's pixels gives the same canvas as oil
/// painting the layer in place.
pub proof fn lemma_oil_from_flat_is_in_place(
    s0: CanvasState,
    s_flat: CanvasState,
    s_in: CanvasState,
    flat: RgbaImage,
    layer_idx: int,
    radius: u32,
    levels: u32,
)
    requires
        0 <= layer_idx < s0.layers@.len(),
        same_pixels(flat, s0.layers@[layer_idx].pixels),
        CanvasState::replaced_pixels(s0, s_flat, layer_idx, s_flat.layers@[layer_idx].pixels),
        image_is(s_flat.layers@[layer_idx].pixels, flat,
            |x: int, y: int, c: int| oil_expected(flat, radius, levels, s0.selection_mask, x, y, c)),
        CanvasState::replaced_pixels(s0, s_in, layer_idx, s_in.layers@[layer_idx].pixels),
        image_is(s_in.layers@[layer_idx].pixels, s0.layers@[layer_idx].pixels,
            |x: int, y: int, c: int| oil_expected(s0.layers@[layer_idx].pixels, radius, levels, s0.selection_mask, x, y, c)),
    ensures
        same_pixels(s_flat.layers@[layer_idx].pixels, s_in.layers@[layer_idx].pixels),
        s_flat.layers@.len() == s_in.layers@.len(),
        forall|i: int| 0 <= i < s_in.layers@.len() && i != layer_idx ==> #[trigger] s_flat.layers@[i] == s_in.layers@[i],
        s_flat.layers@[layer_idx] == s_in.layers@[layer_idx].with_pixels(s_flat.layers@[layer_idx].pixels),
        s_flat.width == s_in.width,
        s_flat.height == s_in.height,
        s_flat.active_layer_index == s_in.active_layer_index,
        s_flat.selection_mask == s_in.selection_mask,
        s_flat.dirty == s_in.dirty,
{
    let l = s0.layers@[layer_idx].pixels;
    let p1 = s_flat.layers@[layer_idx].pixels;
    let p2 = s_in.layers@[layer_idx].pixels;
    assert forall|x: int, y: int, c: int| 0 <= x < p1.width && 0 <= y < p1.height && 0 <= c < 4 implies
        #[trigger] p1.at(x, y, c) == p2.at(x, y, c) by {
        lemma_oil_expected_cong(flat, l, radius, levels, s0.selection_mask, x, y, c);
        assert(p1.at(x, y, c) == oil_expected(flat, radius, levels, s0.selection_mask, x, y, c));
        assert(p2.at(x, y, c) == oil_expected(l, radius, levels, s0.selection_mask, x, y, c));
    }
    crate::raster::lemma_same_pixels_same_data(p1, p2);
    assert forall|i: int| 0 <= i < s_in.layers@.len() && i != layer_idx implies #[trigger] s_flat.layers@[i] == s_in.layers@[i] by {
        assert(s_flat.layers@[i] == s0.layers@[i]);
        assert(s_in.layers@[i] == s0.layers@[i]);
    }
}

} // verus!

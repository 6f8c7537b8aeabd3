//! How the integer effects relate to the image's geometry: filtering a mirrored or
//! transposed image gives the mirrored or transposed result, and the border and channel
//! displacement put pixels where their offsets say.
use vstd::prelude::*;
use crate::raster::{RgbaImage, GrayImage, mask_allows};
use crate::effects::{
    clamp_int, shifted, sample_at, rgb_displace_expected, canvas_border_expected, image_is, border_thickness,
    oil_sample_level, oil_weight, oil_row, oil_win, oil_count, oil_best_from, oil_best, oil_expected,
    in_band, cnt_row, cnt_win, count_below, median_scan, median_expected, max_int, min_int, in_border,
    lemma_oil_win_bound,
};

verus! {

// ---------------------------------------------------------------------------
// Geometry of images and selections
// ---------------------------------------------------------------------------

/// `b` is `a` mirrored across its main diagonal: pixel `(x, y)` of `a` is pixel `(y, x)` of `b`.
pub open spec fn transposed(a: RgbaImage, b: RgbaImage) -> bool {
    &&& b.width == a.height
    &&& b.height == a.width
    &&& forall|x: int, y: int, c: int| 0 <= x < a.width && 0 <= y < a.height && 0 <= c < 4
        ==> #[trigger] b.at(y, x, c) == a.at(x, y, c)
}

/// `b` is `a` upside down: pixel `(x, y)` of `a` is pixel `(x, h - 1 - y)` of `b`.
pub open spec fn flipped_vertically(a: RgbaImage, b: RgbaImage) -> bool {
    &&& b.width == a.width
    &&& b.height == a.height
    &&& forall|x: int, y: int, c: int| 0 <= x < a.width && 0 <= y < a.height && 0 <= c < 4
        ==> #[trigger] b.at(x, a.height - 1 - y, c) == a.at(x, y, c)
}

/// `b` is `a` mirrored left to right: pixel `(x, y)` of `a` is pixel `(w - 1 - x, y)` of `b`.
pub open spec fn flipped_horizontally(a: RgbaImage, b: RgbaImage) -> bool {
    &&& b.width == a.width
    &&& b.height == a.height
    &&& forall|x: int, y: int, c: int| 0 <= x < a.width && 0 <= y < a.height && 0 <= c < 4
        ==> #[trigger] b.at(a.width - 1 - x, y, c) == a.at(x, y, c)
}

/// Selection `mb` on a `h` by `w` image is selection `ma` on a `w` by `h` image, transposed.
pub open spec fn selection_transposed(ma: Option<GrayImage>, mb: Option<GrayImage>, w: int, h: int) -> bool {
    forall|x: int, y: int| 0 <= x < w && 0 <= y < h ==> #[trigger] mask_allows(mb, y, x) == mask_allows(ma, x, y)
}

/// Selection `mb` is selection `ma` upside down, on a `w` by `h` image.
pub open spec fn selection_flipped_vertically(ma: Option<GrayImage>, mb: Option<GrayImage>, w: int, h: int) -> bool {
    forall|x: int, y: int| 0 <= x < w && 0 <= y < h ==> #[trigger] mask_allows(mb, x, h - 1 - y) == mask_allows(ma, x, y)
}

/// Selection `mb` is selection `ma` mirrored left to right, on a `w` by `h` image.
pub open spec fn selection_flipped_horizontally(ma: Option<GrayImage>, mb: Option<GrayImage>, w: int, h: int) -> bool {
    forall|x: int, y: int| 0 <= x < w && 0 <= y < h ==> #[trigger] mask_allows(mb, w - 1 - x, y) == mask_allows(ma, x, y)
}

// ---------------------------------------------------------------------------
// Finite double sums
// ---------------------------------------------------------------------------

/// `f(i, 0) + ... + f(i, k - 1)`.
pub open spec fn row_total(f: spec_fn(int, int) -> int, i: int, k: int) -> int
    decreases k,
{
    if k <= 0 { 0 } else { row_total(f, i, k - 1) + f(i, k - 1) }
}

/// The sum of `f(i, j)` over `0 <= i < m`, `0 <= j < k`.
pub open spec fn grid_total(f: spec_fn(int, int) -> int, m: int, k: int) -> int
    decreases m,
{
    if m <= 0 { 0 } else { grid_total(f, m - 1, k) + row_total(f, m - 1, k) }
}

/// `f` with its two arguments exchanged.
pub open spec fn swap_args(f: spec_fn(int, int) -> int) -> spec_fn(int, int) -> int {
    |i: int, j: int| f(j, i)
}

proof fn lemma_grid_no_columns(f: spec_fn(int, int) -> int, m: int, k: int)
    requires
        k <= 0,
    ensures
        grid_total(f, m, k) == 0,
    decreases m,
{
    if m > 0 {
        lemma_grid_no_columns(f, m - 1, k);
    }
}

proof fn lemma_grid_last_column(f: spec_fn(int, int) -> int, m: int, k: int)
    requires
        k >= 1,
    ensures
        grid_total(f, m, k) == grid_total(f, m, k - 1) + row_total(swap_args(f), k - 1, m),
    decreases m,
{
    if m > 0 {
        lemma_grid_last_column(f, m - 1, k);
        assert(swap_args(f)(k - 1, m - 1) == f(m - 1, k - 1));
    }
}

/// A double sum may be taken in either order.
pub proof fn lemma_grid_swap(f: spec_fn(int, int) -> int, m: int, k: int)
    ensures
        grid_total(f, m, k) == grid_total(swap_args(f), k, m),
    decreases k,
{
    if k <= 0 {
        lemma_grid_no_columns(f, m, k);
    } else {
        lemma_grid_last_column(f, m, k);
        lemma_grid_swap(f, m, k - 1);
    }
}

proof fn lemma_row_reversed(f: spec_fn(int, int) -> int, g: spec_fn(int, int) -> int, i: int, k: int)
    requires
        k >= 0,
        forall|j: int| 0 <= j < k ==> #[trigger] g(i, j) == f(i, k - 1 - j),
    ensures
        row_total(g, i, k) == row_total(f, i, k),
    decreases k,
{
    if k > 0 {
        // g(i, j) for j < k - 1 is f shifted by one: sum of f(i, 1..k) reversed.
        let g1 = |a: int, b: int| f(a, b + 1);
        assert forall|j: int| 0 <= j < k - 1 implies #[trigger] g(i, j) == g1(i, k - 2 - j) by {}
        lemma_row_reversed(g1, g, i, k - 1);
        lemma_row_shift(f, g1, i, k - 1);
    }
}

/// `f(i, 1) + ... + f(i, k)` plus `f(i, 0)` is the row of `f` up to `k + 1`.
proof fn lemma_row_shift(f: spec_fn(int, int) -> int, g1: spec_fn(int, int) -> int, i: int, k: int)
    requires
        k >= 0,
        forall|j: int| #[trigger] g1(i, j) == f(i, j + 1),
    ensures
        row_total(g1, i, k) + f(i, 0) == row_total(f, i, k + 1),
    decreases k,
{
    assert(row_total(f, i, 1) == row_total(f, i, 0) + f(i, 0));
    if k > 0 {
        lemma_row_shift(f, g1, i, k - 1);
        assert(row_total(g1, i, k) == row_total(g1, i, k - 1) + g1(i, k - 1));
        assert(row_total(f, i, k + 1) == row_total(f, i, k) + f(i, k));
    }
}

proof fn lemma_grid_rows_congruent(f: spec_fn(int, int) -> int, g: spec_fn(int, int) -> int, m: int, k: int)
    requires
        forall|i: int| 0 <= i < m ==> #[trigger] row_total(g, i, k) == row_total(f, i, k),
    ensures
        grid_total(g, m, k) == grid_total(f, m, k),
    decreases m,
{
    if m > 0 {
        lemma_grid_rows_congruent(f, g, m - 1, k);
    }
}

/// Reversing the order of the columns does not change a double sum.
pub proof fn lemma_grid_columns_reversed(f: spec_fn(int, int) -> int, g: spec_fn(int, int) -> int, m: int, k: int)
    requires
        k >= 0,
        forall|i: int, j: int| #[trigger] g(i, j) == f(i, k - 1 - j),
    ensures
        grid_total(g, m, k) == grid_total(f, m, k),
{
    assert forall|i: int| 0 <= i < m implies #[trigger] row_total(g, i, k) == row_total(f, i, k) by {
        lemma_row_reversed(f, g, i, k);
    }
    lemma_grid_rows_congruent(f, g, m, k);
}

/// Reversing the order of the rows does not change a double sum.
pub proof fn lemma_grid_rows_reversed(f: spec_fn(int, int) -> int, g: spec_fn(int, int) -> int, m: int, k: int)
    requires
        m >= 0,
        forall|i: int, j: int| #[trigger] g(i, j) == f(m - 1 - i, j),
    ensures
        grid_total(g, m, k) == grid_total(f, m, k),
{
    let sf = swap_args(f);
    let sg = swap_args(g);
    assert forall|i: int, j: int| #[trigger] sg(i, j) == sf(i, m - 1 - j) by {
        assert(sg(i, j) == g(j, i));
        assert(sf(i, m - 1 - j) == f(m - 1 - j, i));
    }
    lemma_grid_columns_reversed(sf, sg, k, m);
    lemma_grid_swap(f, m, k);
    lemma_grid_swap(g, m, k);
}

// ---------------------------------------------------------------------------
// Window samples under the symmetries
// ---------------------------------------------------------------------------

/// The sample at offset `(dx, dy)` from `(y, x)` in the transpose is the sample at offset
/// `(dy, dx)` from `(x, y)` in the image.
pub proof fn lemma_sample_transposed(a: RgbaImage, b: RgbaImage, x: int, y: int, dx: int, dy: int, c: int)
    requires
        transposed(a, b),
        0 <= x < a.width,
        0 <= y < a.height,
        0 <= c < 4,
    ensures
        sample_at(b, y, x, dx, dy, c) == sample_at(a, x, y, dy, dx, c),
{
    let sx = shifted(x, dy, a.width as int);
    let sy = shifted(y, dx, a.height as int);
    assert(0 <= sx < a.width && 0 <= sy < a.height);
    assert(b.at(sy, sx, c) == a.at(sx, sy, c));
}

/// The sample at offset `(dx, dy)` from `(x, h - 1 - y)` in the upside-down image is the
/// sample at offset `(dx, -dy)` from `(x, y)` in the image.
pub proof fn lemma_sample_flipped_vertically(a: RgbaImage, b: RgbaImage, x: int, y: int, dx: int, dy: int, c: int)
    requires
        flipped_vertically(a, b),
        0 <= x < a.width,
        0 <= y < a.height,
        0 <= c < 4,
    ensures
        sample_at(b, x, a.height - 1 - y, dx, dy, c) == sample_at(a, x, y, dx, -dy, c),
{
    let h = a.height as int;
    let sx = shifted(x, dx, a.width as int);
    let sy = shifted(y, -dy, h);
    assert(0 <= sx < a.width && 0 <= sy < a.height);
    assert(shifted(h - 1 - y, dy, h) == h - 1 - sy);
    assert(b.at(sx, h - 1 - sy, c) == a.at(sx, sy, c));
}

/// The sample at offset `(dx, dy)` from `(w - 1 - x, y)` in the mirrored image is the
/// sample at offset `(-dx, dy)` from `(x, y)` in the image.
pub proof fn lemma_sample_flipped_horizontally(a: RgbaImage, b: RgbaImage, x: int, y: int, dx: int, dy: int, c: int)
    requires
        flipped_horizontally(a, b),
        0 <= x < a.width,
        0 <= y < a.height,
        0 <= c < 4,
    ensures
        sample_at(b, a.width - 1 - x, y, dx, dy, c) == sample_at(a, x, y, -dx, dy, c),
{
    let w = a.width as int;
    let sx = shifted(x, -dx, w);
    let sy = shifted(y, dy, a.height as int);
    assert(0 <= sx < a.width && 0 <= sy < a.height);
    assert(shifted(w - 1 - x, dx, w) == w - 1 - sx);
    assert(b.at(w - 1 - sx, sy, c) == a.at(sx, sy, c));
}

// ---------------------------------------------------------------------------
// RGB displacement
// ---------------------------------------------------------------------------

/// Displacing the channels of the transposed image, with each offset's two components
/// exchanged, gives the transpose of displacing the channels of the image.
pub proof fn lemma_rgb_displace_transpose(
    a: RgbaImage, b: RgbaImage, ma: Option<GrayImage>, mb: Option<GrayImage>,
    r_off: (i32, i32), g_off: (i32, i32), b_off: (i32, i32), oa: RgbaImage, ob: RgbaImage,
)
    requires
        transposed(a, b),
        selection_transposed(ma, mb, a.width as int, a.height as int),
        image_is(oa, a, |x: int, y: int, c: int| rgb_displace_expected(a, r_off, g_off, b_off, ma, x, y, c)),
        image_is(ob, b, |x: int, y: int, c: int| rgb_displace_expected(b, (r_off.1, r_off.0), (g_off.1, g_off.0), (b_off.1, b_off.0), mb, x, y, c)),
    ensures
        transposed(oa, ob),
{
    assert forall|x: int, y: int, c: int| 0 <= x < oa.width && 0 <= y < oa.height && 0 <= c < 4
        implies #[trigger] ob.at(y, x, c) == oa.at(x, y, c) by {
        assert(mask_allows(mb, y, x) == mask_allows(ma, x, y));
        assert(ob.at(y, x, c) == rgb_displace_expected(b, (r_off.1, r_off.0), (g_off.1, g_off.0), (b_off.1, b_off.0), mb, y, x, c));
        assert(oa.at(x, y, c) == rgb_displace_expected(a, r_off, g_off, b_off, ma, x, y, c));
        lemma_sample_transposed(a, b, x, y, r_off.1 as int, r_off.0 as int, 0);
        lemma_sample_transposed(a, b, x, y, g_off.1 as int, g_off.0 as int, 1);
        lemma_sample_transposed(a, b, x, y, b_off.1 as int, b_off.0 as int, 2);
        assert(b.at(y, x, c) == a.at(x, y, c));
    }
}

/// With no selection, each colour channel of pixel `(x, y)` comes from the pixel its
/// offset points to, `(x + dx, y + dy)` clamped to the image, and alpha stays in place.
pub proof fn lemma_rgb_displace_moves_channels(a: RgbaImage, out: RgbaImage, r_off: (i32, i32), g_off: (i32, i32), b_off: (i32, i32))
    requires
        image_is(out, a, |x: int, y: int, c: int| rgb_displace_expected(a, r_off, g_off, b_off, None, x, y, c)),
    ensures
        forall|x: int, y: int| 0 <= x < a.width && 0 <= y < a.height ==> {
            let w = a.width as int;
            let h = a.height as int;
            &&& #[trigger] out.at(x, y, 0) == a.at(clamp_int(x + r_off.0, 0, w - 1), clamp_int(y + r_off.1, 0, h - 1), 0)
            &&& out.at(x, y, 1) == a.at(clamp_int(x + g_off.0, 0, w - 1), clamp_int(y + g_off.1, 0, h - 1), 1)
            &&& out.at(x, y, 2) == a.at(clamp_int(x + b_off.0, 0, w - 1), clamp_int(y + b_off.1, 0, h - 1), 2)
            &&& out.at(x, y, 3) == a.at(x, y, 3)
        },
{
    assert forall|x: int, y: int| 0 <= x < a.width && 0 <= y < a.height implies {
        let w = a.width as int;
        let h = a.height as int;
        &&& #[trigger] out.at(x, y, 0) == a.at(clamp_int(x + r_off.0, 0, w - 1), clamp_int(y + r_off.1, 0, h - 1), 0)
        &&& out.at(x, y, 1) == a.at(clamp_int(x + g_off.0, 0, w - 1), clamp_int(y + g_off.1, 0, h - 1), 1)
        &&& out.at(x, y, 2) == a.at(clamp_int(x + b_off.0, 0, w - 1), clamp_int(y + b_off.1, 0, h - 1), 2)
        &&& out.at(x, y, 3) == a.at(x, y, 3)
    } by {
        assert(out.at(x, y, 0) == rgb_displace_expected(a, r_off, g_off, b_off, None, x, y, 0));
        assert(out.at(x, y, 1) == rgb_displace_expected(a, r_off, g_off, b_off, None, x, y, 1));
        assert(out.at(x, y, 2) == rgb_displace_expected(a, r_off, g_off, b_off, None, x, y, 2));
        assert(out.at(x, y, 3) == rgb_displace_expected(a, r_off, g_off, b_off, None, x, y, 3));
    }
}

// ---------------------------------------------------------------------------
// Canvas border
// ---------------------------------------------------------------------------

/// Framing the upside-down image gives the upside-down framed image: the bottom band is as
/// thick as the top one.
pub proof fn lemma_canvas_border_flip_vertical(
    a: RgbaImage, b: RgbaImage, ma: Option<GrayImage>, mb: Option<GrayImage>,
    width: u32, color: [u8; 4], oa: RgbaImage, ob: RgbaImage,
)
    requires
        flipped_vertically(a, b),
        selection_flipped_vertically(ma, mb, a.width as int, a.height as int),
        image_is(oa, a, |x: int, y: int, c: int| canvas_border_expected(a, width, color, ma, x, y, c)),
        image_is(ob, b, |x: int, y: int, c: int| canvas_border_expected(b, width, color, mb, x, y, c)),
    ensures
        flipped_vertically(oa, ob),
{
    let h = a.height as int;
    assert forall|x: int, y: int, c: int| 0 <= x < oa.width && 0 <= y < oa.height && 0 <= c < 4
        implies #[trigger] ob.at(x, oa.height - 1 - y, c) == oa.at(x, y, c) by {
        assert(mask_allows(mb, x, h - 1 - y) == mask_allows(ma, x, y));
        assert(ob.at(x, h - 1 - y, c) == canvas_border_expected(b, width, color, mb, x, h - 1 - y, c));
        assert(oa.at(x, y, c) == canvas_border_expected(a, width, color, ma, x, y, c));
        assert(b.at(x, h - 1 - y, c) == a.at(x, y, c));
    }
}

/// Framing the mirrored image gives the mirrored framed image: the right band is as thick
/// as the left one.
pub proof fn lemma_canvas_border_flip_horizontal(
    a: RgbaImage, b: RgbaImage, ma: Option<GrayImage>, mb: Option<GrayImage>,
    width: u32, color: [u8; 4], oa: RgbaImage, ob: RgbaImage,
)
    requires
        flipped_horizontally(a, b),
        selection_flipped_horizontally(ma, mb, a.width as int, a.height as int),
        image_is(oa, a, |x: int, y: int, c: int| canvas_border_expected(a, width, color, ma, x, y, c)),
        image_is(ob, b, |x: int, y: int, c: int| canvas_border_expected(b, width, color, mb, x, y, c)),
    ensures
        flipped_horizontally(oa, ob),
{
    let w = a.width as int;
    assert forall|x: int, y: int, c: int| 0 <= x < oa.width && 0 <= y < oa.height && 0 <= c < 4
        implies #[trigger] ob.at(oa.width - 1 - x, y, c) == oa.at(x, y, c) by {
        assert(mask_allows(mb, w - 1 - x, y) == mask_allows(ma, x, y));
        assert(ob.at(w - 1 - x, y, c) == canvas_border_expected(b, width, color, mb, w - 1 - x, y, c));
        assert(oa.at(x, y, c) == canvas_border_expected(a, width, color, ma, x, y, c));
        assert(b.at(w - 1 - x, y, c) == a.at(x, y, c));
    }
}

/// Framing the transposed image gives the transposed framed image: the side bands are as
/// thick as the top and bottom ones.
pub proof fn lemma_canvas_border_transpose(
    a: RgbaImage, b: RgbaImage, ma: Option<GrayImage>, mb: Option<GrayImage>,
    width: u32, color: [u8; 4], oa: RgbaImage, ob: RgbaImage,
)
    requires
        transposed(a, b),
        selection_transposed(ma, mb, a.width as int, a.height as int),
        image_is(oa, a, |x: int, y: int, c: int| canvas_border_expected(a, width, color, ma, x, y, c)),
        image_is(ob, b, |x: int, y: int, c: int| canvas_border_expected(b, width, color, mb, x, y, c)),
    ensures
        transposed(oa, ob),
{
    assert(border_thickness(width, a.width as int, a.height as int) == border_thickness(width, a.height as int, a.width as int));
    assert forall|x: int, y: int, c: int| 0 <= x < oa.width && 0 <= y < oa.height && 0 <= c < 4
        implies #[trigger] ob.at(y, x, c) == oa.at(x, y, c) by {
        assert(mask_allows(mb, y, x) == mask_allows(ma, x, y));
        assert(ob.at(y, x, c) == canvas_border_expected(b, width, color, mb, y, x, c));
        assert(oa.at(x, y, c) == canvas_border_expected(a, width, color, ma, x, y, c));
        assert(b.at(y, x, c) == a.at(x, y, c));
    }
}

/// Every selected pixel on the outermost ring of the image (first or last row or column)
/// takes the border colour, whatever the requested width.
pub proof fn lemma_canvas_border_paints_edges(a: RgbaImage, mask: Option<GrayImage>, width: u32, color: [u8; 4], out: RgbaImage)
    requires
        image_is(out, a, |x: int, y: int, c: int| canvas_border_expected(a, width, color, mask, x, y, c)),
    ensures
        forall|x: int, y: int, c: int| 0 <= x < a.width && 0 <= y < a.height && 0 <= c < 4
            && mask_allows(mask, x, y) && (x == 0 || y == 0 || x == a.width - 1 || y == a.height - 1)
            ==> #[trigger] out.at(x, y, c) == color@[c],
{
    assert forall|x: int, y: int, c: int| 0 <= x < a.width && 0 <= y < a.height && 0 <= c < 4
        && mask_allows(mask, x, y) && (x == 0 || y == 0 || x == a.width - 1 || y == a.height - 1)
        implies #[trigger] out.at(x, y, c) == color@[c] by {
        assert(out.at(x, y, c) == canvas_border_expected(a, width, color, mask, x, y, c));
        assert(border_thickness(width, a.width as int, a.height as int) >= 1);
    }
}

// ---------------------------------------------------------------------------
// Oil painting
// ---------------------------------------------------------------------------

/// What the window sample in row `i` and column `j` (offset `(-r + j, -r + i)` from
/// `(x, y)`) adds to bin `bin`: its weight when it falls in the bin, else nothing.
pub open spec fn oil_term(a: RgbaImage, x: int, y: int, r: int, n: int, bin: int, which: int) -> spec_fn(int, int) -> int {
    |i: int, j: int| if oil_sample_level(a, x, y, -r + j, -r + i, n) == bin { oil_weight(a, x, y, -r + j, -r + i, which) } else { 0 }
}

proof fn lemma_oil_row_total(a: RgbaImage, x: int, y: int, r: int, n: int, bin: int, which: int, dy: int, k: int)
    ensures
        oil_row(a, x, y, r, n, bin, which, dy, k) == row_total(oil_term(a, x, y, r, n, bin, which), dy + r, k),
    decreases k,
{
    if k > 0 {
        lemma_oil_row_total(a, x, y, r, n, bin, which, dy, k - 1);
        assert(-r + (dy + r) == dy);
    }
}

/// The bin total over the first `m` rows of the window is the double sum of `oil_term`.
proof fn lemma_oil_win_total(a: RgbaImage, x: int, y: int, r: int, n: int, bin: int, which: int, m: int)
    ensures
        oil_win(a, x, y, r, n, bin, which, m) == grid_total(oil_term(a, x, y, r, n, bin, which), m, 2 * r + 1),
    decreases m,
{
    if m > 0 {
        lemma_oil_win_total(a, x, y, r, n, bin, which, m - 1);
        lemma_oil_row_total(a, x, y, r, n, bin, which, -r + m - 1, 2 * r + 1);
    }
}

proof fn lemma_oil_best_same_counts(a: RgbaImage, xa: int, ya: int, b: RgbaImage, xb: int, yb: int, r: int, n: int, bin: int, best: int, best_count: int)
    requires
        0 <= bin,
        forall|k: int| 0 <= k < n ==> #[trigger] oil_count(b, xb, yb, r, n, k) == oil_count(a, xa, ya, r, n, k),
    ensures
        oil_best_from(b, xb, yb, r, n, bin, best, best_count) == oil_best_from(a, xa, ya, r, n, bin, best, best_count),
    decreases n - bin,
{
    if bin < n {
        assert(oil_count(b, xb, yb, r, n, bin) == oil_count(a, xa, ya, r, n, bin));
        lemma_oil_best_same_counts(a, xa, ya, b, xb, yb, r, n, bin + 1, bin, oil_count(a, xa, ya, r, n, bin));
        lemma_oil_best_same_counts(a, xa, ya, b, xb, yb, r, n, bin + 1, best, best_count);
    }
}

/// The oil-painting value of a pixel depends only on its selection, its own value and the
/// bin totals of its window.
proof fn lemma_oil_expected_same_windows(
    a: RgbaImage, xa: int, ya: int, ma: Option<GrayImage>,
    b: RgbaImage, xb: int, yb: int, mb: Option<GrayImage>,
    radius: u32, levels: u32, c: int,
)
    requires
        0 <= c < 4,
        mask_allows(mb, xb, yb) == mask_allows(ma, xa, ya),
        b.at(xb, yb, c) == a.at(xa, ya, c),
        forall|bin: int, which: int| 0 <= which <= 3 ==>
            #[trigger] oil_win(b, xb, yb, clamp_int(radius as int, 1, 10), clamp_int(levels as int, 2, 64), bin, which, 2 * clamp_int(radius as int, 1, 10) + 1)
            == oil_win(a, xa, ya, clamp_int(radius as int, 1, 10), clamp_int(levels as int, 2, 64), bin, which, 2 * clamp_int(radius as int, 1, 10) + 1),
    ensures
        oil_expected(b, radius, levels, mb, xb, yb, c) == oil_expected(a, radius, levels, ma, xa, ya, c),
{
    let r = clamp_int(radius as int, 1, 10);
    let n = clamp_int(levels as int, 2, 64);
    assert forall|k: int| 0 <= k < n implies #[trigger] oil_count(b, xb, yb, r, n, k) == oil_count(a, xa, ya, r, n, k) by {
        assert(oil_win(b, xb, yb, r, n, k, 3, 2 * r + 1) == oil_win(a, xa, ya, r, n, k, 3, 2 * r + 1));
    }
    lemma_oil_best_same_counts(a, xa, ya, b, xb, yb, r, n, 0, 0, 0);
    let best = oil_best(a, xa, ya, r, n);
    assert(oil_best(b, xb, yb, r, n) == best);
    assert(oil_win(b, xb, yb, r, n, best, 3, 2 * r + 1) == oil_win(a, xa, ya, r, n, best, 3, 2 * r + 1));
    if c < 3 {
        assert(oil_win(b, xb, yb, r, n, best, c, 2 * r + 1) == oil_win(a, xa, ya, r, n, best, c, 2 * r + 1));
    }
}

proof fn lemma_oil_windows_transposed(a: RgbaImage, b: RgbaImage, x: int, y: int, r: int, n: int)
    requires
        transposed(a, b),
        0 <= x < a.width,
        0 <= y < a.height,
    ensures
        forall|bin: int, which: int| 0 <= which <= 3 ==>
            #[trigger] oil_win(b, y, x, r, n, bin, which, 2 * r + 1) == oil_win(a, x, y, r, n, bin, which, 2 * r + 1),
{
    assert forall|bin: int, which: int| 0 <= which <= 3 implies
        #[trigger] oil_win(b, y, x, r, n, bin, which, 2 * r + 1) == oil_win(a, x, y, r, n, bin, which, 2 * r + 1) by {
        let fa = oil_term(a, x, y, r, n, bin, which);
        let fb = oil_term(b, y, x, r, n, bin, which);
        assert forall|i: int, j: int| #[trigger] fb(i, j) == swap_args(fa)(i, j) by {
            lemma_sample_transposed(a, b, x, y, -r + j, -r + i, 0);
            lemma_sample_transposed(a, b, x, y, -r + j, -r + i, 1);
            lemma_sample_transposed(a, b, x, y, -r + j, -r + i, 2);
        }
        assert(fb =~= swap_args(fa));
        lemma_oil_win_total(a, x, y, r, n, bin, which, 2 * r + 1);
        lemma_oil_win_total(b, y, x, r, n, bin, which, 2 * r + 1);
        lemma_grid_swap(fa, 2 * r + 1, 2 * r + 1);
    }
}

proof fn lemma_oil_windows_flipped_vertically(a: RgbaImage, b: RgbaImage, x: int, y: int, r: int, n: int)
    requires
        flipped_vertically(a, b),
        0 <= x < a.width,
        0 <= y < a.height,
        r >= 0,
    ensures
        forall|bin: int, which: int| 0 <= which <= 3 ==>
            #[trigger] oil_win(b, x, a.height - 1 - y, r, n, bin, which, 2 * r + 1) == oil_win(a, x, y, r, n, bin, which, 2 * r + 1),
{
    let yb = a.height - 1 - y;
    assert forall|bin: int, which: int| 0 <= which <= 3 implies
        #[trigger] oil_win(b, x, yb, r, n, bin, which, 2 * r + 1) == oil_win(a, x, y, r, n, bin, which, 2 * r + 1) by {
        let fa = oil_term(a, x, y, r, n, bin, which);
        let fb = oil_term(b, x, yb, r, n, bin, which);
        assert forall|i: int, j: int| #[trigger] fb(i, j) == fa(2 * r + 1 - 1 - i, j) by {
            lemma_sample_flipped_vertically(a, b, x, y, -r + j, -r + i, 0);
            lemma_sample_flipped_vertically(a, b, x, y, -r + j, -r + i, 1);
            lemma_sample_flipped_vertically(a, b, x, y, -r + j, -r + i, 2);
            assert(-(-r + i) == -r + (2 * r + 1 - 1 - i));
        }
        lemma_oil_win_total(a, x, y, r, n, bin, which, 2 * r + 1);
        lemma_oil_win_total(b, x, yb, r, n, bin, which, 2 * r + 1);
        lemma_grid_rows_reversed(fa, fb, 2 * r + 1, 2 * r + 1);
    }
}

proof fn lemma_oil_windows_flipped_horizontally(a: RgbaImage, b: RgbaImage, x: int, y: int, r: int, n: int)
    requires
        flipped_horizontally(a, b),
        0 <= x < a.width,
        0 <= y < a.height,
        r >= 0,
    ensures
        forall|bin: int, which: int| 0 <= which <= 3 ==>
            #[trigger] oil_win(b, a.width - 1 - x, y, r, n, bin, which, 2 * r + 1) == oil_win(a, x, y, r, n, bin, which, 2 * r + 1),
{
    let xb = a.width - 1 - x;
    assert forall|bin: int, which: int| 0 <= which <= 3 implies
        #[trigger] oil_win(b, xb, y, r, n, bin, which, 2 * r + 1) == oil_win(a, x, y, r, n, bin, which, 2 * r + 1) by {
        let fa = oil_term(a, x, y, r, n, bin, which);
        let fb = oil_term(b, xb, y, r, n, bin, which);
        assert forall|i: int, j: int| #[trigger] fb(i, j) == fa(i, 2 * r + 1 - 1 - j) by {
            lemma_sample_flipped_horizontally(a, b, x, y, -r + j, -r + i, 0);
            lemma_sample_flipped_horizontally(a, b, x, y, -r + j, -r + i, 1);
            lemma_sample_flipped_horizontally(a, b, x, y, -r + j, -r + i, 2);
            assert(-(-r + j) == -r + (2 * r + 1 - 1 - j));
        }
        lemma_oil_win_total(a, x, y, r, n, bin, which, 2 * r + 1);
        lemma_oil_win_total(b, xb, y, r, n, bin, which, 2 * r + 1);
        lemma_grid_columns_reversed(fa, fb, 2 * r + 1, 2 * r + 1);
    }
}

/// Oil painting the transposed image gives the transpose of the oil-painted image: every
/// pixel draws on the whole square window around it, rows and columns alike.
pub proof fn lemma_oil_transpose(
    a: RgbaImage, b: RgbaImage, ma: Option<GrayImage>, mb: Option<GrayImage>,
    radius: u32, levels: u32, oa: RgbaImage, ob: RgbaImage,
)
    requires
        transposed(a, b),
        selection_transposed(ma, mb, a.width as int, a.height as int),
        image_is(oa, a, |x: int, y: int, c: int| oil_expected(a, radius, levels, ma, x, y, c)),
        image_is(ob, b, |x: int, y: int, c: int| oil_expected(b, radius, levels, mb, x, y, c)),
    ensures
        transposed(oa, ob),
{
    assert forall|x: int, y: int, c: int| 0 <= x < oa.width && 0 <= y < oa.height && 0 <= c < 4
        implies #[trigger] ob.at(y, x, c) == oa.at(x, y, c) by {
        assert(mask_allows(mb, y, x) == mask_allows(ma, x, y));
        assert(b.at(y, x, c) == a.at(x, y, c));
        lemma_oil_windows_transposed(a, b, x, y, clamp_int(radius as int, 1, 10), clamp_int(levels as int, 2, 64));
        lemma_oil_expected_same_windows(a, x, y, ma, b, y, x, mb, radius, levels, c);
        assert(ob.at(y, x, c) == oil_expected(b, radius, levels, mb, y, x, c));
        assert(oa.at(x, y, c) == oil_expected(a, radius, levels, ma, x, y, c));
    }
}

/// Oil painting the upside-down image gives the upside-down oil-painted image: the window
/// reaches as far up as down.
pub proof fn lemma_oil_flip_vertical(
    a: RgbaImage, b: RgbaImage, ma: Option<GrayImage>, mb: Option<GrayImage>,
    radius: u32, levels: u32, oa: RgbaImage, ob: RgbaImage,
)
    requires
        flipped_vertically(a, b),
        selection_flipped_vertically(ma, mb, a.width as int, a.height as int),
        image_is(oa, a, |x: int, y: int, c: int| oil_expected(a, radius, levels, ma, x, y, c)),
        image_is(ob, b, |x: int, y: int, c: int| oil_expected(b, radius, levels, mb, x, y, c)),
    ensures
        flipped_vertically(oa, ob),
{
    let h = a.height as int;
    assert forall|x: int, y: int, c: int| 0 <= x < oa.width && 0 <= y < oa.height && 0 <= c < 4
        implies #[trigger] ob.at(x, oa.height - 1 - y, c) == oa.at(x, y, c) by {
        assert(mask_allows(mb, x, h - 1 - y) == mask_allows(ma, x, y));
        assert(b.at(x, h - 1 - y, c) == a.at(x, y, c));
        lemma_oil_windows_flipped_vertically(a, b, x, y, clamp_int(radius as int, 1, 10), clamp_int(levels as int, 2, 64));
        lemma_oil_expected_same_windows(a, x, y, ma, b, x, h - 1 - y, mb, radius, levels, c);
        assert(ob.at(x, h - 1 - y, c) == oil_expected(b, radius, levels, mb, x, h - 1 - y, c));
        assert(oa.at(x, y, c) == oil_expected(a, radius, levels, ma, x, y, c));
    }
}

/// Oil painting the mirrored image gives the mirrored oil-painted image: the window
/// reaches as far left as right.
pub proof fn lemma_oil_flip_horizontal(
    a: RgbaImage, b: RgbaImage, ma: Option<GrayImage>, mb: Option<GrayImage>,
    radius: u32, levels: u32, oa: RgbaImage, ob: RgbaImage,
)
    requires
        flipped_horizontally(a, b),
        selection_flipped_horizontally(ma, mb, a.width as int, a.height as int),
        image_is(oa, a, |x: int, y: int, c: int| oil_expected(a, radius, levels, ma, x, y, c)),
        image_is(ob, b, |x: int, y: int, c: int| oil_expected(b, radius, levels, mb, x, y, c)),
    ensures
        flipped_horizontally(oa, ob),
{
    let w = a.width as int;
    assert forall|x: int, y: int, c: int| 0 <= x < oa.width && 0 <= y < oa.height && 0 <= c < 4
        implies #[trigger] ob.at(oa.width - 1 - x, y, c) == oa.at(x, y, c) by {
        assert(mask_allows(mb, w - 1 - x, y) == mask_allows(ma, x, y));
        assert(b.at(w - 1 - x, y, c) == a.at(x, y, c));
        lemma_oil_windows_flipped_horizontally(a, b, x, y, clamp_int(radius as int, 1, 10), clamp_int(levels as int, 2, 64));
        lemma_oil_expected_same_windows(a, x, y, ma, b, w - 1 - x, y, mb, radius, levels, c);
        assert(ob.at(w - 1 - x, y, c) == oil_expected(b, radius, levels, mb, w - 1 - x, y, c));
        assert(oa.at(x, y, c) == oil_expected(a, radius, levels, ma, x, y, c));
    }
}

// ---------------------------------------------------------------------------
// Median
// ---------------------------------------------------------------------------

/// Whether the window sample in row `i` and column `j` (offset `(-r + j, -r + i)` from
/// `(x, y)`) has channel `c` in `[lo, hi)`: 1 if so, else 0.
pub open spec fn band_term(a: RgbaImage, x: int, y: int, r: int, c: int, lo: int, hi: int) -> spec_fn(int, int) -> int {
    |i: int, j: int| if in_band(sample_at(a, x, y, -r + j, -r + i, c), lo, hi) { 1int } else { 0int }
}

proof fn lemma_cnt_row_total(a: RgbaImage, x: int, y: int, r: int, c: int, lo: int, hi: int, dy: int, k: int)
    ensures
        cnt_row(a, x, y, r, c, lo, hi, dy, k) as int == row_total(band_term(a, x, y, r, c, lo, hi), dy + r, k),
    decreases k,
{
    if k > 0 {
        lemma_cnt_row_total(a, x, y, r, c, lo, hi, dy, k - 1);
        assert(-r + (dy + r) == dy);
    }
}

/// The number of samples of the first `m` window rows in a band is the double sum of
/// `band_term`.
proof fn lemma_cnt_win_total(a: RgbaImage, x: int, y: int, r: int, c: int, lo: int, hi: int, m: int)
    ensures
        cnt_win(a, x, y, r, c, lo, hi, m) as int == grid_total(band_term(a, x, y, r, c, lo, hi), m, 2 * r + 1),
    decreases m,
{
    if m > 0 {
        lemma_cnt_win_total(a, x, y, r, c, lo, hi, m - 1);
        lemma_cnt_row_total(a, x, y, r, c, lo, hi, -r + m - 1, 2 * r + 1);
    }
}

proof fn lemma_median_scan_same_counts(a: RgbaImage, xa: int, ya: int, b: RgbaImage, xb: int, yb: int, r: int, c: int, start: int)
    requires
        forall|v: int| #[trigger] count_below(b, xb, yb, r, c, v) == count_below(a, xa, ya, r, c, v),
    ensures
        median_scan(b, xb, yb, r, c, start) == median_scan(a, xa, ya, r, c, start),
    decreases 256 - start,
{
    assert(count_below(b, xb, yb, r, c, start + 1) == count_below(a, xa, ya, r, c, start + 1));
    if start < 255 {
        lemma_median_scan_same_counts(a, xa, ya, b, xb, yb, r, c, start + 1);
    }
}

/// The median value of a pixel depends only on its selection, its own value and the band
/// counts of its window.
proof fn lemma_median_expected_same_windows(
    a: RgbaImage, xa: int, ya: int, ma: Option<GrayImage>,
    b: RgbaImage, xb: int, yb: int, mb: Option<GrayImage>,
    radius: u32, c: int,
)
    requires
        mask_allows(mb, xb, yb) == mask_allows(ma, xa, ya),
        b.at(xb, yb, c) == a.at(xa, ya, c),
        forall|lo: int, hi: int|
            #[trigger] cnt_win(b, xb, yb, max_int(radius as int, 1), c, lo, hi, 2 * max_int(radius as int, 1) + 1)
            == cnt_win(a, xa, ya, max_int(radius as int, 1), c, lo, hi, 2 * max_int(radius as int, 1) + 1),
    ensures
        median_expected(b, radius, mb, xb, yb, c) == median_expected(a, radius, ma, xa, ya, c),
{
    let r = max_int(radius as int, 1);
    assert forall|v: int| #[trigger] count_below(b, xb, yb, r, c, v) == count_below(a, xa, ya, r, c, v) by {
        assert(cnt_win(b, xb, yb, r, c, 0, v, 2 * r + 1) == cnt_win(a, xa, ya, r, c, 0, v, 2 * r + 1));
    }
    lemma_median_scan_same_counts(a, xa, ya, b, xb, yb, r, c, 0);
}

proof fn lemma_median_windows_transposed(a: RgbaImage, b: RgbaImage, x: int, y: int, r: int, c: int)
    requires
        transposed(a, b),
        0 <= x < a.width,
        0 <= y < a.height,
        0 <= c < 4,
    ensures
        forall|lo: int, hi: int| #[trigger] cnt_win(b, y, x, r, c, lo, hi, 2 * r + 1) == cnt_win(a, x, y, r, c, lo, hi, 2 * r + 1),
{
    assert forall|lo: int, hi: int| #[trigger] cnt_win(b, y, x, r, c, lo, hi, 2 * r + 1) == cnt_win(a, x, y, r, c, lo, hi, 2 * r + 1) by {
        let fa = band_term(a, x, y, r, c, lo, hi);
        let fb = band_term(b, y, x, r, c, lo, hi);
        assert forall|i: int, j: int| #[trigger] fb(i, j) == swap_args(fa)(i, j) by {
            lemma_sample_transposed(a, b, x, y, -r + j, -r + i, c);
        }
        assert(fb =~= swap_args(fa));
        lemma_cnt_win_total(a, x, y, r, c, lo, hi, 2 * r + 1);
        lemma_cnt_win_total(b, y, x, r, c, lo, hi, 2 * r + 1);
        lemma_grid_swap(fa, 2 * r + 1, 2 * r + 1);
    }
}

proof fn lemma_median_windows_flipped_vertically(a: RgbaImage, b: RgbaImage, x: int, y: int, r: int, c: int)
    requires
        flipped_vertically(a, b),
        0 <= x < a.width,
        0 <= y < a.height,
        0 <= c < 4,
        r >= 0,
    ensures
        forall|lo: int, hi: int| #[trigger] cnt_win(b, x, a.height - 1 - y, r, c, lo, hi, 2 * r + 1) == cnt_win(a, x, y, r, c, lo, hi, 2 * r + 1),
{
    let yb = a.height - 1 - y;
    assert forall|lo: int, hi: int| #[trigger] cnt_win(b, x, yb, r, c, lo, hi, 2 * r + 1) == cnt_win(a, x, y, r, c, lo, hi, 2 * r + 1) by {
        let fa = band_term(a, x, y, r, c, lo, hi);
        let fb = band_term(b, x, yb, r, c, lo, hi);
        assert forall|i: int, j: int| #[trigger] fb(i, j) == fa(2 * r + 1 - 1 - i, j) by {
            lemma_sample_flipped_vertically(a, b, x, y, -r + j, -r + i, c);
            assert(-(-r + i) == -r + (2 * r + 1 - 1 - i));
        }
        lemma_cnt_win_total(a, x, y, r, c, lo, hi, 2 * r + 1);
        lemma_cnt_win_total(b, x, yb, r, c, lo, hi, 2 * r + 1);
        lemma_grid_rows_reversed(fa, fb, 2 * r + 1, 2 * r + 1);
    }
}

proof fn lemma_median_windows_flipped_horizontally(a: RgbaImage, b: RgbaImage, x: int, y: int, r: int, c: int)
    requires
        flipped_horizontally(a, b),
        0 <= x < a.width,
        0 <= y < a.height,
        0 <= c < 4,
        r >= 0,
    ensures
        forall|lo: int, hi: int| #[trigger] cnt_win(b, a.width - 1 - x, y, r, c, lo, hi, 2 * r + 1) == cnt_win(a, x, y, r, c, lo, hi, 2 * r + 1),
{
    let xb = a.width - 1 - x;
    assert forall|lo: int, hi: int| #[trigger] cnt_win(b, xb, y, r, c, lo, hi, 2 * r + 1) == cnt_win(a, x, y, r, c, lo, hi, 2 * r + 1) by {
        let fa = band_term(a, x, y, r, c, lo, hi);
        let fb = band_term(b, xb, y, r, c, lo, hi);
        assert forall|i: int, j: int| #[trigger] fb(i, j) == fa(i, 2 * r + 1 - 1 - j) by {
            lemma_sample_flipped_horizontally(a, b, x, y, -r + j, -r + i, c);
            assert(-(-r + j) == -r + (2 * r + 1 - 1 - j));
        }
        lemma_cnt_win_total(a, x, y, r, c, lo, hi, 2 * r + 1);
        lemma_cnt_win_total(b, xb, y, r, c, lo, hi, 2 * r + 1);
        lemma_grid_columns_reversed(fa, fb, 2 * r + 1, 2 * r + 1);
    }
}

/// The median filter on the transposed image gives the transpose of the filtered image:
/// every pixel takes the median of the whole square window around it.
pub proof fn lemma_median_transpose(
    a: RgbaImage, b: RgbaImage, ma: Option<GrayImage>, mb: Option<GrayImage>,
    radius: u32, oa: RgbaImage, ob: RgbaImage,
)
    requires
        transposed(a, b),
        selection_transposed(ma, mb, a.width as int, a.height as int),
        image_is(oa, a, |x: int, y: int, c: int| median_expected(a, radius, ma, x, y, c)),
        image_is(ob, b, |x: int, y: int, c: int| median_expected(b, radius, mb, x, y, c)),
    ensures
        transposed(oa, ob),
{
    assert forall|x: int, y: int, c: int| 0 <= x < oa.width && 0 <= y < oa.height && 0 <= c < 4
        implies #[trigger] ob.at(y, x, c) == oa.at(x, y, c) by {
        assert(mask_allows(mb, y, x) == mask_allows(ma, x, y));
        assert(b.at(y, x, c) == a.at(x, y, c));
        lemma_median_windows_transposed(a, b, x, y, max_int(radius as int, 1), c);
        lemma_median_expected_same_windows(a, x, y, ma, b, y, x, mb, radius, c);
        assert(ob.at(y, x, c) == median_expected(b, radius, mb, y, x, c));
        assert(oa.at(x, y, c) == median_expected(a, radius, ma, x, y, c));
    }
}

/// The median filter on the upside-down image gives the upside-down filtered image.
pub proof fn lemma_median_flip_vertical(
    a: RgbaImage, b: RgbaImage, ma: Option<GrayImage>, mb: Option<GrayImage>,
    radius: u32, oa: RgbaImage, ob: RgbaImage,
)
    requires
        flipped_vertically(a, b),
        selection_flipped_vertically(ma, mb, a.width as int, a.height as int),
        image_is(oa, a, |x: int, y: int, c: int| median_expected(a, radius, ma, x, y, c)),
        image_is(ob, b, |x: int, y: int, c: int| median_expected(b, radius, mb, x, y, c)),
    ensures
        flipped_vertically(oa, ob),
{
    let h = a.height as int;
    assert forall|x: int, y: int, c: int| 0 <= x < oa.width && 0 <= y < oa.height && 0 <= c < 4
        implies #[trigger] ob.at(x, oa.height - 1 - y, c) == oa.at(x, y, c) by {
        assert(mask_allows(mb, x, h - 1 - y) == mask_allows(ma, x, y));
        assert(b.at(x, h - 1 - y, c) == a.at(x, y, c));
        lemma_median_windows_flipped_vertically(a, b, x, y, max_int(radius as int, 1), c);
        lemma_median_expected_same_windows(a, x, y, ma, b, x, h - 1 - y, mb, radius, c);
        assert(ob.at(x, h - 1 - y, c) == median_expected(b, radius, mb, x, h - 1 - y, c));
        assert(oa.at(x, y, c) == median_expected(a, radius, ma, x, y, c));
    }
}

/// The median filter on the mirrored image gives the mirrored filtered image.
pub proof fn lemma_median_flip_horizontal(
    a: RgbaImage, b: RgbaImage, ma: Option<GrayImage>, mb: Option<GrayImage>,
    radius: u32, oa: RgbaImage, ob: RgbaImage,
)
    requires
        flipped_horizontally(a, b),
        selection_flipped_horizontally(ma, mb, a.width as int, a.height as int),
        image_is(oa, a, |x: int, y: int, c: int| median_expected(a, radius, ma, x, y, c)),
        image_is(ob, b, |x: int, y: int, c: int| median_expected(b, radius, mb, x, y, c)),
    ensures
        flipped_horizontally(oa, ob),
{
    let w = a.width as int;
    assert forall|x: int, y: int, c: int| 0 <= x < oa.width && 0 <= y < oa.height && 0 <= c < 4
        implies #[trigger] ob.at(oa.width - 1 - x, y, c) == oa.at(x, y, c) by {
        assert(mask_allows(mb, w - 1 - x, y) == mask_allows(ma, x, y));
        assert(b.at(w - 1 - x, y, c) == a.at(x, y, c));
        lemma_median_windows_flipped_horizontally(a, b, x, y, max_int(radius as int, 1), c);
        lemma_median_expected_same_windows(a, x, y, ma, b, w - 1 - x, y, mb, radius, c);
        assert(ob.at(w - 1 - x, y, c) == median_expected(b, radius, mb, w - 1 - x, y, c));
        assert(oa.at(x, y, c) == median_expected(a, radius, ma, x, y, c));
    }
}

proof fn lemma_oil_best_scan(flat: RgbaImage, x: int, y: int, r: int, n: int, b: int, best: int, best_count: int)
    requires
        r >= 0,
        0 <= b <= n,
        0 <= best < n,
        b == 0 ==> best == 0 && best_count == 0,
        b > 0 ==> {
            &&& best < b
            &&& best_count == oil_count(flat, x, y, r, n, best)
            &&& forall|k: int| 0 <= k < b ==> #[trigger] oil_count(flat, x, y, r, n, k) <= best_count
            &&& forall|k: int| 0 <= k < best ==> #[trigger] oil_count(flat, x, y, r, n, k) < best_count
        },
    ensures
        ({
            let res = oil_best_from(flat, x, y, r, n, b, best, best_count);
            &&& 0 <= res < n
            &&& forall|k: int| 0 <= k < n ==> #[trigger] oil_count(flat, x, y, r, n, k) <= oil_count(flat, x, y, r, n, res)
            &&& forall|k: int| 0 <= k < res ==> #[trigger] oil_count(flat, x, y, r, n, k) < oil_count(flat, x, y, r, n, res)
        }),
    decreases n - b,
{
    if b == n {
        if n == 0 {
        } else {
            assert(b > 0);
        }
    } else {
        let cb = oil_count(flat, x, y, r, n, b);
        lemma_oil_win_bound(flat, x, y, r, n, b, 3, 2 * r + 1);
        if cb > best_count {
            if b > 0 {
                assert forall|k: int| 0 <= k < b + 1 implies #[trigger] oil_count(flat, x, y, r, n, k) <= cb by {}
            }
            lemma_oil_best_scan(flat, x, y, r, n, b + 1, b, cb);
        } else {
            if b == 0 {
                assert(cb == 0);
            }
            lemma_oil_best_scan(flat, x, y, r, n, b + 1, best, best_count);
        }
    }
}

/// The bin that oil painting takes its colour from is the most populated intensity bin of
/// the window, and the lowest one among equally populated bins.
pub proof fn lemma_oil_best_is_first_most_common(flat: RgbaImage, x: int, y: int, r: int, n: int)
    requires
        r >= 0,
        n >= 1,
    ensures
        0 <= oil_best(flat, x, y, r, n) < n,
        forall|k: int| 0 <= k < n ==> #[trigger] oil_count(flat, x, y, r, n, k) <= oil_count(flat, x, y, r, n, oil_best(flat, x, y, r, n)),
        forall|k: int| 0 <= k < oil_best(flat, x, y, r, n) ==> #[trigger] oil_count(flat, x, y, r, n, k) < oil_count(flat, x, y, r, n, oil_best(flat, x, y, r, n)),
{
    lemma_oil_best_scan(flat, x, y, r, n, 0, 0, 0);
}

/// Distance from `(x, y)` to the nearest edge of a `w` by `h` image, counted in pixels (0
/// on the outermost ring).
pub open spec fn edge_distance(x: int, y: int, w: int, h: int) -> int {
    min_int(min_int(x, w - 1 - x), min_int(y, h - 1 - y))
}

/// Each selected pixel takes the border colour exactly when it lies fewer than `t` pixels
/// from the nearest edge, where `t` is the requested width, at least 1 and at most the
/// shorter side; every other pixel keeps its value.
pub proof fn lemma_canvas_border_band(a: RgbaImage, mask: Option<GrayImage>, width: u32, color: [u8; 4], out: RgbaImage)
    requires
        image_is(out, a, |x: int, y: int, c: int| canvas_border_expected(a, width, color, mask, x, y, c)),
    ensures
        forall|x: int, y: int, c: int| 0 <= x < a.width && 0 <= y < a.height && 0 <= c < 4 ==>
            #[trigger] out.at(x, y, c) == if mask_allows(mask, x, y)
                && edge_distance(x, y, a.width as int, a.height as int) < clamp_int(width as int, 1, min_int(a.width as int, a.height as int)) {
                color@[c]
            } else {
                a.at(x, y, c)
            },
{
    assert forall|x: int, y: int, c: int| 0 <= x < a.width && 0 <= y < a.height && 0 <= c < 4 implies
        #[trigger] out.at(x, y, c) == if mask_allows(mask, x, y)
            && edge_distance(x, y, a.width as int, a.height as int) < clamp_int(width as int, 1, min_int(a.width as int, a.height as int)) {
            color@[c]
        } else {
            a.at(x, y, c)
        } by {
        assert(out.at(x, y, c) == canvas_border_expected(a, width, color, mask, x, y, c));
        let w = a.width as int;
        let h = a.height as int;
        assert(border_thickness(width, w, h) == clamp_int(width as int, 1, min_int(w, h)));
        assert(in_border(x, y, w, h, border_thickness(width, w, h))
            == (edge_distance(x, y, w, h) < border_thickness(width, w, h)));
    }
}

} // verus!

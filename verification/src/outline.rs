//! The distance search behind the outline effect: for each pixel, the squared distance to
//! the nearest opaque and to the nearest transparent pixel within a square window.
use vstd::prelude::*;
use crate::raster::{RgbaImage, GrayImage, mask_allows, mask_view, mask_wf, mask_selects, get_px};

verus! {

/// Sample `(sx, sy)` lies on the image and is opaque (alpha above 0) when `want_filled`,
/// transparent (alpha 0) otherwise.
pub open spec fn sample_matches(flat: RgbaImage, sx: int, sy: int, want_filled: bool) -> bool {
    &&& 0 <= sx < flat.width
    &&& 0 <= sy < flat.height
    &&& if want_filled { flat.at(sx, sy, 3) > 0 } else { flat.at(sx, sy, 3) == 0 }
}

/// Offset `(dx, dy)` lies in the square window of radius `r`.
pub open spec fn in_window(dx: int, dy: int, r: int) -> bool {
    -r <= dx <= r && -r <= dy <= r
}

/// `d` is the least squared distance `dx² + dy²` over the offsets in the window of radius `r`
/// around `(x, y)` whose sample matches; `None` when no sample there matches.
pub open spec fn is_nearest(d: Option<i32>, flat: RgbaImage, x: int, y: int, want_filled: bool, r: int) -> bool {
    match d {
        Some(v) => {
            &&& exists|dx: int, dy: int| #![trigger sample_matches(flat, x + dx, y + dy, want_filled)]
                in_window(dx, dy, r) && sample_matches(flat, x + dx, y + dy, want_filled) && dx * dx + dy * dy == v
            &&& forall|dx: int, dy: int| #![trigger sample_matches(flat, x + dx, y + dy, want_filled)]
                in_window(dx, dy, r) && sample_matches(flat, x + dx, y + dy, want_filled) ==> v <= dx * dx + dy * dy
        },
        None => forall|dx: int, dy: int| #![trigger sample_matches(flat, x + dx, y + dy, want_filled)]
            in_window(dx, dy, r) ==> !sample_matches(flat, x + dx, y + dy, want_filled),
    }
}

/// Offset `(dx, dy)` comes before `(ex, ey)` in the search order (row by row).
pub open spec fn visited_before(dx: int, dy: int, ex: int, ey: int) -> bool {
    dy < ey || (dy == ey && dx < ex)
}

/// The nearest matching sample around `(x, y)` within the window of radius `r`, as its
/// squared distance.
pub fn nearest_match_sq(flat: &RgbaImage, x: u32, y: u32, want_filled: bool, r: i32) -> (d: Option<i32>)
    requires
        flat.wf(),
        x < flat.width,
        y < flat.height,
        flat.width as int + r <= i32::MAX,
        flat.height as int + r <= i32::MAX,
        0 <= r,
        2 * r * r <= i32::MAX,
    ensures
        is_nearest(d, *flat, x as int, y as int, want_filled, r as int),
{
    let w = flat.width as i32;
    let h = flat.height as i32;
    let xi = x as i32;
    let yi = y as i32;
    let mut best: Option<i32> = None;
    let ghost mut bdx: int = 0;
    let ghost mut bdy: int = 0;
    let mut dy: i32 = -r;
    while dy <= r
        invariant
            flat.wf(),
            w == flat.width,
            h == flat.height,
            xi == x,
            yi == y,
            x < w,
            y < h,
            w + r <= i32::MAX,
            h + r <= i32::MAX,
            0 <= r,
        2 * r * r <= i32::MAX,
            -r <= dy <= r + 1,
            match best {
                Some(v) => {
                    &&& in_window(bdx, bdy, r as int)
                    &&& sample_matches(*flat, xi + bdx, yi + bdy, want_filled)
                    &&& bdx * bdx + bdy * bdy == v
                    &&& forall|ex: int, ey: int| #![trigger sample_matches(*flat, xi + ex, yi + ey, want_filled)]
                        in_window(ex, ey, r as int) && ey < dy && sample_matches(*flat, xi + ex, yi + ey, want_filled) ==> v <= ex * ex + ey * ey
                },
                None => forall|ex: int, ey: int| #![trigger sample_matches(*flat, xi + ex, yi + ey, want_filled)]
                    in_window(ex, ey, r as int) && ey < dy ==> !sample_matches(*flat, xi + ex, yi + ey, want_filled),
            },
        decreases r + 1 - dy,
    {
        let mut dx: i32 = -r;
        while dx <= r
            invariant
                flat.wf(),
                w == flat.width,
                h == flat.height,
                xi == x,
                yi == y,
                x < w,
                y < h,
                w + r <= i32::MAX,
                h + r <= i32::MAX,
                0 <= r,
        2 * r * r <= i32::MAX,
                -r <= dy <= r,
                -r <= dx <= r + 1,
                match best {
                    Some(v) => {
                        &&& in_window(bdx, bdy, r as int)
                        &&& sample_matches(*flat, xi + bdx, yi + bdy, want_filled)
                        &&& bdx * bdx + bdy * bdy == v
                        &&& forall|ex: int, ey: int| #![trigger sample_matches(*flat, xi + ex, yi + ey, want_filled)]
                            in_window(ex, ey, r as int) && visited_before(ex, ey, dx as int, dy as int)
                                && sample_matches(*flat, xi + ex, yi + ey, want_filled) ==> v <= ex * ex + ey * ey
                    },
                    None => forall|ex: int, ey: int| #![trigger sample_matches(*flat, xi + ex, yi + ey, want_filled)]
                        in_window(ex, ey, r as int) && visited_before(ex, ey, dx as int, dy as int)
                            ==> !sample_matches(*flat, xi + ex, yi + ey, want_filled),
                },
            decreases r + 1 - dx,
        {
            proof {
                assert(0 <= dx * dx && 0 <= dy * dy && dx * dx + dy * dy <= 2 * r * r) by (nonlinear_arith)
                    requires -r <= dx <= r, -r <= dy <= r;
            }
            let dist_sq = dx * dx + dy * dy;
            let sx = xi + dx;
            let sy = yi + dy;
            let current_best = match best {
                Some(v) => v,
                None => i32::MAX,
            };
            if dist_sq <= current_best && 0 <= sx && 0 <= sy && sx < w && sy < h {
                let (_, _, _, a) = get_px(flat, sx as usize, sy as usize);
                let matches = if want_filled { a > 0 } else { a == 0 };
                if matches {
                    best = Some(dist_sq);
                    proof {
                        bdx = dx as int;
                        bdy = dy as int;
                    }
                }
            }
            dx += 1;
        }
        dy += 1;
    }
    best
}

/// What the outline effect needs to know of one pixel: whether the selection leaves it
/// alone, and the squared distances to the nearest opaque and transparent samples.
pub struct OutlineProbe {
    pub skipped: bool,
    pub filled_sq: Option<i32>,
    pub empty_sq: Option<i32>,
}

/// Probe `p` describes pixel `(x, y)` for search radius `r`: skipped exactly when the
/// selection excludes it, and otherwise holding both nearest distances.
pub open spec fn probe_ok(p: OutlineProbe, flat: RgbaImage, mask: Option<GrayImage>, x: int, y: int, r: int) -> bool {
    &&& p.skipped == !mask_allows(mask, x, y)
    &&& !p.skipped ==> is_nearest(p.filled_sq, flat, x, y, true, r)
    &&& !p.skipped ==> is_nearest(p.empty_sq, flat, x, y, false, r)
}

/// Probe every pixel of `flat`, row by row, with search radius `r`.
pub fn outline_probe(flat: &RgbaImage, r: i32, mask: Option<&GrayImage>) -> (out: Vec<OutlineProbe>)
    requires
        flat.wf(),
        mask_wf(mask),
        flat.width as int + r <= i32::MAX,
        flat.height as int + r <= i32::MAX,
        0 <= r,
        2 * r * r <= i32::MAX,
    ensures
        out@.len() == flat.width as int * flat.height as int,
        forall|x: int, y: int| 0 <= x < flat.width && 0 <= y < flat.height ==>
            probe_ok(#[trigger] out@[y * flat.width + x], *flat, mask_view(mask), x, y, r as int),
{
    let w = flat.width;
    let h = flat.height;
    let ghost wi = w as int;
    let mut out: Vec<OutlineProbe> = Vec::new();
    let mut y: u32 = 0;
    while y < h
        invariant
            flat.wf(),
            mask_wf(mask),
            w == flat.width,
            h == flat.height,
            wi == w as int,
            w + r <= i32::MAX,
            h + r <= i32::MAX,
            0 <= r,
        2 * r * r <= i32::MAX,
            y <= h,
            out@.len() == y * wi,
            forall|xx: int, yy: int| 0 <= xx < wi && 0 <= yy < y ==>
                probe_ok(#[trigger] out@[yy * wi + xx], *flat, mask_view(mask), xx, yy, r as int),
        decreases h - y,
    {
        let mut x: u32 = 0;
        while x < w
            invariant
                flat.wf(),
                mask_wf(mask),
                w == flat.width,
                h == flat.height,
                wi == w as int,
                w + r <= i32::MAX,
                h + r <= i32::MAX,
                0 <= r,
        2 * r * r <= i32::MAX,
                y < h,
                x <= w,
                out@.len() == y * wi + x,
                forall|xx: int, yy: int| 0 <= xx < wi && 0 <= yy <= y && yy * wi + xx < y * wi + x ==>
                    probe_ok(#[trigger] out@[yy * wi + xx], *flat, mask_view(mask), xx, yy, r as int),
            decreases w - x,
        {
            let probe = if !mask_selects(mask, x as usize, y as usize) {
                OutlineProbe { skipped: true, filled_sq: None, empty_sq: None }
            } else {
                let f = nearest_match_sq(flat, x, y, true, r);
                let e = nearest_match_sq(flat, x, y, false, r);
                OutlineProbe { skipped: false, filled_sq: f, empty_sq: e }
            };
            out.push(probe);
            proof {
                assert forall|xx: int, yy: int| 0 <= xx < wi && 0 <= yy <= y && yy * wi + xx < y * wi + x + 1 implies
                    probe_ok(#[trigger] out@[yy * wi + xx], *flat, mask_view(mask), xx, yy, r as int) by {
                    crate::raster::lemma_linear_pos_unique(wi, xx, yy, x as int, y as int);
                }
            }
            x += 1;
        }
        proof {
            crate::raster::lemma_row_step(wi, y as int);
            assert forall|xx: int, yy: int| 0 <= xx < wi && 0 <= yy < y + 1 implies
                probe_ok(#[trigger] out@[yy * wi + xx], *flat, mask_view(mask), xx, yy, r as int) by {
                assert(yy * wi + xx < y * wi + wi) by (nonlinear_arith)
                    requires 0 <= xx < wi, 0 <= yy < y + 1;
            }
        }
        y += 1;
    }
    proof {
        assert(h * wi == wi * h) by (nonlinear_arith);
    }
    out
}

} // verus!

//! RGBA and grey pixel buffers, their index arithmetic, and the selection mask test.
use vstd::prelude::*;

verus! {

/// An 8-bit RGBA image stored row-major, four bytes per pixel.
pub struct RgbaImage {
    pub width: u32,
    pub height: u32,
    pub data: Vec<u8>,
}

/// An 8-bit single-channel image stored row-major (used as a selection mask).
pub struct GrayImage {
    pub width: u32,
    pub height: u32,
    pub data: Vec<u8>,
}

/// Byte offset of channel `c` of pixel `(x, y)` in a row-major RGBA buffer of width `w`.
pub open spec fn pix_idx(w: int, x: int, y: int, c: int) -> int {
    (y * w + x) * 4 + c
}

impl RgbaImage {
    /// The buffer holds exactly `width * height` pixels.
    pub open spec fn wf(&self) -> bool {
        self.data@.len() == self.width as int * self.height as int * 4
    }

    /// Channel `c` of pixel `(x, y)`.
    pub open spec fn at(&self, x: int, y: int, c: int) -> u8 {
        self.data@[pix_idx(self.width as int, x, y, c)]
    }
}

impl GrayImage {
    /// The buffer holds exactly `width * height` samples.
    pub open spec fn wf(&self) -> bool {
        self.data@.len() == self.width as int * self.height as int
    }

    pub open spec fn at(&self, x: int, y: int) -> u8 {
        self.data@[y * self.width as int + x]
    }
}

/// A pixel is processed unless the mask covers it with a zero sample.
/// Pixels outside the mask's extent, and every pixel when there is no mask, are processed.
pub open spec fn mask_allows(mask: Option<GrayImage>, x: int, y: int) -> bool {
    match mask {
        None => true,
        Some(m) => !(x < m.width && y < m.height && m.at(x, y) == 0),
    }
}

pub open spec fn mask_wf(mask: Option<&GrayImage>) -> bool {
    match mask {
        None => true,
        Some(m) => m.wf(),
    }
}

pub open spec fn mask_view(mask: Option<&GrayImage>) -> Option<GrayImage> {
    match mask {
        None => None,
        Some(m) => Some(*m),
    }
}

pub proof fn lemma_pix_idx_bounds(w: int, h: int, x: int, y: int, c: int)
    requires
        0 <= x < w,
        0 <= y < h,
        0 <= c < 4,
    ensures
        0 <= pix_idx(w, x, y, c) < w * h * 4,
        pix_idx(w, x, y, c) + (4 - c) <= w * h * 4,
{
    assert(y * w + x < w * h) by (nonlinear_arith)
        requires 0 <= x < w, 0 <= y < h;
    assert(0 <= y * w) by (nonlinear_arith)
        requires 0 <= y, 0 <= w;
}

/// Row `y + 1` starts one row of `w` pixels after row `y`.
pub proof fn lemma_row_step(w: int, y: int)
    ensures
        (y + 1) * w == y * w + w,
{
    assert((y + 1) * w == y * w + w) by (nonlinear_arith);
}

/// Exec form of `mask_allows`.
pub fn mask_selects(mask: Option<&GrayImage>, x: usize, y: usize) -> (r: bool)
    requires
        mask_wf(mask),
    ensures
        r == mask_allows(mask_view(mask), x as int, y as int),
{
    match mask {
        None => true,
        Some(m) => {
            let mw = m.width as usize;
            let mh = m.height as usize;
            let len = m.data.len();
            if x < mw && y < mh {
                proof {
                    assert(y * mw + x < mw * mh) by (nonlinear_arith)
                        requires x < mw, y < mh;
                    assert(mw * mh == len);
                    assert(y * mw <= y * mw + x) by (nonlinear_arith)
                        requires x >= 0, y >= 0, mw >= 0;
                }
                let i = y * mw + x;
                m.data[i] != 0
            } else {
                true
            }
        }
    }
}

} // verus!

verus! {

/// Every pixel whose row-major position is below `done` already holds `f` in `out`.
pub open spec fn prefix_matches(out: Seq<u8>, w: int, done: int, f: spec_fn(int, int, int) -> u8) -> bool {
    forall|xx: int, yy: int, c: int|
        0 <= xx < w && 0 <= yy && 0 <= c < 4 && yy * w + xx < done
            ==> #[trigger] out[pix_idx(w, xx, yy, c)] == f(xx, yy, c)
}

/// Append the four channels of pixel `(x, y)` to a row-major buffer being built in order.
pub fn push_pixel(
    out: &mut Vec<u8>,
    p0: u8,
    p1: u8,
    p2: u8,
    p3: u8,
    Ghost(w): Ghost<int>,
    Ghost(x): Ghost<int>,
    Ghost(y): Ghost<int>,
    Ghost(f): Ghost<spec_fn(int, int, int) -> u8>,
)
    requires
        0 <= x < w,
        0 <= y,
        old(out)@.len() == (y * w + x) * 4,
        prefix_matches(old(out)@, w, y * w + x, f),
        p0 == f(x, y, 0),
        p1 == f(x, y, 1),
        p2 == f(x, y, 2),
        p3 == f(x, y, 3),
    ensures
        final(out)@.len() == (y * w + x + 1) * 4,
        prefix_matches(final(out)@, w, y * w + x + 1, f),
{
    let ghost before = out@;
    out.push(p0);
    out.push(p1);
    out.push(p2);
    out.push(p3);
    assert forall|xx: int, yy: int, c: int|
        0 <= xx < w && 0 <= yy && 0 <= c < 4 && yy * w + xx < y * w + x + 1
            implies #[trigger] out@[pix_idx(w, xx, yy, c)] == f(xx, yy, c) by {
        lemma_linear_pos_unique(w, xx, yy, x, y);
        if yy * w + xx < y * w + x {
            assert(pix_idx(w, xx, yy, c) < before.len());
            assert(out@[pix_idx(w, xx, yy, c)] == before[pix_idx(w, xx, yy, c)]);
        }
    }
}

/// After all `h` rows are written, the buffer is exactly the image described by `f`.
pub proof fn lemma_prefix_complete(out: Seq<u8>, w: int, h: int, f: spec_fn(int, int, int) -> u8)
    requires
        0 <= w,
        0 <= h,
        out.len() == (h * w) * 4,
        prefix_matches(out, w, h * w, f),
    ensures
        out.len() == w * h * 4,
        forall|x: int, y: int, c: int|
            0 <= x < w && 0 <= y < h && 0 <= c < 4 ==> #[trigger] out[pix_idx(w, x, y, c)] == f(x, y, c),
{
    assert(h * w == w * h) by (nonlinear_arith);
    assert forall|x: int, y: int, c: int| 0 <= x < w && 0 <= y < h && 0 <= c < 4 implies
        #[trigger] out[pix_idx(w, x, y, c)] == f(x, y, c) by {
        assert(y * w + x < h * w) by (nonlinear_arith)
            requires 0 <= x < w, 0 <= y < h;
    }
}

/// Distinct in-row positions have distinct row-major offsets.
pub proof fn lemma_linear_pos_unique(w: int, xx: int, yy: int, x: int, y: int)
    requires
        0 <= xx < w,
        0 <= x < w,
        0 <= yy,
        0 <= y,
    ensures
        yy * w + xx == y * w + x ==> xx == x && yy == y,
        yy * w + xx < y * w + x + 1 ==> (yy * w + xx < y * w + x || (xx == x && yy == y)),
{
    if yy < y {
        assert(yy * w + xx < y * w + x) by (nonlinear_arith)
            requires 0 <= xx < w, 0 <= x, yy < y;
    } else if yy > y {
        assert(yy * w + xx > y * w + x) by (nonlinear_arith)
            requires 0 <= x < w, 0 <= xx, yy > y;
    }
}

/// Every byte offset of a `w` by `h` RGBA buffer is a channel of exactly one pixel.
pub proof fn lemma_pixel_of_index(w: int, h: int, i: int) -> (r: (int, int, int))
    requires
        0 < w,
        0 <= h,
        0 <= i < w * h * 4,
    ensures
        0 <= r.0 < w,
        0 <= r.1 < h,
        0 <= r.2 < 4,
        pix_idx(w, r.0, r.1, r.2) == i,
{
    let p = i / 4;
    let c = i % 4;
    let x = p % w;
    let y = p / w;
    assert(i == p * 4 + c && 0 <= c < 4 && 0 <= p) by (nonlinear_arith)
        requires p == i / 4, c == i % 4, 0 <= i;
    assert(p == y * w + x && 0 <= x < w && 0 <= y) by (nonlinear_arith)
        requires x == p % w, y == p / w, 0 < w, 0 <= p;
    assert(p < w * h) by (nonlinear_arith)
        requires i == p * 4 + c, 0 <= c < 4, i < w * h * 4;
    assert(y < h) by (nonlinear_arith)
        requires p == y * w + x, 0 <= x, p < w * h, 0 < w;
    (x, y, c)
}

/// Two `w` by `h` RGBA buffers that agree on every channel of every pixel are equal.
pub proof fn lemma_pixelwise_equal(a: Seq<u8>, b: Seq<u8>, w: int, h: int)
    requires
        0 <= w,
        0 <= h,
        a.len() == w * h * 4,
        b.len() == w * h * 4,
        forall|x: int, y: int, c: int| 0 <= x < w && 0 <= y < h && 0 <= c < 4 ==> #[trigger] a[pix_idx(w, x, y, c)] == b[pix_idx(w, x, y, c)],
    ensures
        a == b,
{
    if w == 0 {
        assert(a.len() == 0) by (nonlinear_arith)
            requires a.len() == w * h * 4, w == 0;
    } else {
        assert forall|i: int| 0 <= i < a.len() implies a[i] == b[i] by {
            let (x, y, c) = lemma_pixel_of_index(w, h, i);
            assert(a[pix_idx(w, x, y, c)] == b[pix_idx(w, x, y, c)]);
        }
    }
    assert(a =~= b);
}

/// Two well-formed images of the same size that agree on every channel of every pixel
/// hold the same bytes.
pub proof fn lemma_same_pixels_same_data(a: RgbaImage, b: RgbaImage)
    requires
        a.wf(),
        b.wf(),
        a.width == b.width,
        a.height == b.height,
        forall|x: int, y: int, c: int|
            0 <= x < a.width && 0 <= y < a.height && 0 <= c < 4 ==> #[trigger] a.at(x, y, c) == b.at(x, y, c),
    ensures
        a.data@ == b.data@,
{
    let w = a.width as int;
    let h = a.height as int;
    if w == 0 {
        assert(a.data@.len() == 0) by (nonlinear_arith)
            requires a.data@.len() == w * h * 4, w == 0;
        assert(b.data@.len() == 0) by (nonlinear_arith)
            requires b.data@.len() == w * h * 4, w == 0;
        assert(a.data@ =~= b.data@);
    } else {
        assert forall|i: int| 0 <= i < a.data@.len() implies a.data@[i] == b.data@[i] by {
            let (x, y, c) = lemma_pixel_of_index(w, h, i);
            assert(a.at(x, y, c) == b.at(x, y, c));
        }
        assert(a.data@ =~= b.data@);
    }
}

/// Read the four channels of pixel `(x, y)`.
pub fn get_px(img: &RgbaImage, x: usize, y: usize) -> (r: (u8, u8, u8, u8))
    requires
        img.wf(),
        x < img.width,
        y < img.height,
    ensures
        r.0 == img.at(x as int, y as int, 0),
        r.1 == img.at(x as int, y as int, 1),
        r.2 == img.at(x as int, y as int, 2),
        r.3 == img.at(x as int, y as int, 3),
{
    let w = img.width as usize;
    let len = img.data.len();
    proof {
        lemma_pix_idx_bounds(w as int, img.height as int, x as int, y as int, 0);
        assert(y * w <= y * w + x) by (nonlinear_arith)
            requires x >= 0, y >= 0, w >= 0;
        assert((y * w + x) * 4 + 4 <= len);
    }
    let i = (y * w + x) * 4;
    (img.data[i], img.data[i + 1], img.data[i + 2], img.data[i + 3])
}


impl RgbaImage {
    /// A fully transparent (all-zero) image of the given size.
    pub fn new(width: u32, height: u32) -> (img: RgbaImage)
        requires
            width as int * height as int * 4 <= usize::MAX,
        ensures
            img.wf(),
            img.width == width,
            img.height == height,
            forall|i: int| 0 <= i < img.data@.len() ==> img.data@[i] == 0,
    {
        let n = (width as usize) * (height as usize) * 4;
        let mut data: Vec<u8> = Vec::new();
        while data.len() < n
            invariant
                data@.len() <= n,
                forall|i: int| 0 <= i < data@.len() ==> data@[i] == 0,
            decreases n - data@.len(),
        {
            data.push(0);
        }
        RgbaImage { width, height, data }
    }

    /// A copy of this image.
    pub fn duplicate(&self) -> (img: RgbaImage)
        ensures
            img.width == self.width,
            img.height == self.height,
            img.data@ == self.data@,
    {
        RgbaImage { width: self.width, height: self.height, data: self.data.clone() }
    }
}
} // verus!

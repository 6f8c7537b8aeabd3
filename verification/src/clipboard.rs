//! What copying a selection takes from a layer: the bounding box of the selected pixels and
//! the selected pixels cut out to that box.
use vstd::prelude::*;
use crate::raster::{RgbaImage, GrayImage, pix_idx, prefix_matches, push_pixel, lemma_prefix_complete, lemma_row_step, get_px};
use crate::canvas::CanvasState;
use crate::script_error::{trim, chars_of, sub_chars, occurs_at, trim_range};

verus! {

/// Mask sample `(x, y)` is selected (non-zero).
pub open spec fn selected(mask: GrayImage, x: int, y: int) -> bool {
    mask.at(x, y) > 0
}

/// Some sample of the mask is selected.
pub open spec fn any_selected(mask: GrayImage) -> bool {
    exists|x: int, y: int| 0 <= x < mask.width && 0 <= y < mask.height && #[trigger] selected(mask, x, y)
}

/// `[x0, x1] x [y0, y1]` is the smallest rectangle holding every selected sample.
pub open spec fn is_selection_box(mask: GrayImage, x0: int, y0: int, x1: int, y1: int) -> bool {
    &&& 0 <= x0 <= x1 < mask.width
    &&& 0 <= y0 <= y1 < mask.height
    &&& forall|x: int, y: int| 0 <= x < mask.width && 0 <= y < mask.height && #[trigger] selected(mask, x, y)
        ==> x0 <= x <= x1 && y0 <= y <= y1
    &&& exists|y: int| 0 <= y < mask.height && #[trigger] selected(mask, x0, y)
    &&& exists|y: int| 0 <= y < mask.height && #[trigger] selected(mask, x1, y)
    &&& exists|x: int| 0 <= x < mask.width && #[trigger] selected(mask, x, y0)
    &&& exists|x: int| 0 <= x < mask.width && #[trigger] selected(mask, x, y1)
}

/// Bounding box `(x0, y0, x1, y1)`, inclusive, of the selected samples, if any.
pub fn selection_bounds(mask: &GrayImage) -> (r: Option<(u32, u32, u32, u32)>)
    requires
        mask.wf(),
    ensures
        r is None <==> !any_selected(*mask),
        r matches Some(b) ==> is_selection_box(*mask, b.0 as int, b.1 as int, b.2 as int, b.3 as int),
{
    let w = mask.width;
    let h = mask.height;
    let wu = w as usize;
    let dl = mask.data.len();
    let ghost m = *mask;
    let mut found = false;
    let mut min_x: u32 = 0;
    let mut min_y: u32 = 0;
    let mut max_x: u32 = 0;
    let mut max_y: u32 = 0;
    let ghost mut ay: int = 0;
    let ghost mut by_: int = 0;
    let ghost mut cx: int = 0;
    let ghost mut ex: int = 0;
    let mut y: u32 = 0;
    while y < h
        invariant
            m == *mask,
            mask.wf(),
            dl == mask.data@.len(),
            w == mask.width,
            h == mask.height,
            wu == w,
            y <= h,
            !found ==> forall|xx: int, yy: int| 0 <= xx < w && 0 <= yy < y ==> !#[trigger] selected(m, xx, yy),
            found ==> {
                &&& min_x <= max_x < w && min_y <= max_y < y
                &&& forall|xx: int, yy: int| 0 <= xx < w && 0 <= yy < y && #[trigger] selected(m, xx, yy)
                    ==> min_x <= xx <= max_x && min_y <= yy <= max_y
                &&& 0 <= ay < h && selected(m, min_x as int, ay)
                &&& 0 <= by_ < h && selected(m, max_x as int, by_)
                &&& 0 <= cx < w && selected(m, cx, min_y as int)
                &&& 0 <= ex < w && selected(m, ex, max_y as int)
            },
        decreases h - y,
    {
        let mut x: u32 = 0;
        while x < w
            invariant
                m == *mask,
                mask.wf(),
                dl == mask.data@.len(),
                w == mask.width,
                h == mask.height,
                wu == w,
                y < h,
                x <= w,
                !found ==> forall|xx: int, yy: int| 0 <= xx < w && 0 <= yy && (yy < y || (yy == y && xx < x))
                    ==> !#[trigger] selected(m, xx, yy),
                found ==> {
                    &&& min_x <= max_x < w && min_y <= max_y <= y
                    &&& forall|xx: int, yy: int| 0 <= xx < w && 0 <= yy && (yy < y || (yy == y && xx < x))
                        && #[trigger] selected(m, xx, yy) ==> min_x <= xx <= max_x && min_y <= yy <= max_y
                    &&& 0 <= ay < h && selected(m, min_x as int, ay)
                    &&& 0 <= by_ < h && selected(m, max_x as int, by_)
                    &&& 0 <= cx < w && selected(m, cx, min_y as int)
                    &&& 0 <= ex < w && selected(m, ex, max_y as int)
                },
            decreases w - x,
        {
            proof {
                assert((y as int) * wu + x < wu * h) by (nonlinear_arith)
                    requires x < wu, y < h;
                assert(0 <= (y as int) * wu) by (nonlinear_arith)
                    requires 0 <= y, 0 <= wu;
            }
            let i = (y as usize) * wu + (x as usize);
            if mask.data[i] > 0 {
                if !found {
                    found = true;
                    min_x = x;
                    max_x = x;
                    min_y = y;
                    max_y = y;
                    proof {
                        ay = y as int;
                        by_ = y as int;
                        cx = x as int;
                        ex = x as int;
                    }
                } else {
                    if x < min_x {
                        min_x = x;
                        proof { ay = y as int; }
                    }
                    if x > max_x {
                        max_x = x;
                        proof { by_ = y as int; }
                    }
                    if y < min_y {
                        min_y = y;
                        proof { cx = x as int; }
                    }
                    if y > max_y {
                        max_y = y;
                        proof { ex = x as int; }
                    }
                }
            }
            x += 1;
        }
        y += 1;
    }
    if !found {
        return None;
    }
    Some((min_x, min_y, max_x, max_y))
}

/// Channel `c` of pixel `(x, y)` of the clip cut at `(x0, y0)` from `layer`: the layer's
/// pixel where the mask selects it, transparent black elsewhere.
pub open spec fn clip_at(layer: RgbaImage, mask: GrayImage, x0: int, y0: int, x: int, y: int, c: int) -> u8 {
    if selected(mask, x0 + x, y0 + y) { layer.at(x0 + x, y0 + y, c) } else { 0 }
}

/// `clip` is cut from `layer` at `(x0, y0)` to the bounding box of the selection `mask`,
/// holding the selected pixels and transparent black elsewhere.
pub open spec fn is_clip(clip: RgbaImage, layer: RgbaImage, mask: GrayImage, x0: int, y0: int) -> bool {
    &&& exists|x1: int, y1: int| #[trigger] is_selection_box(mask, x0, y0, x1, y1)
        && clip.width == x1 - x0 + 1 && clip.height == y1 - y0 + 1
    &&& clip.wf()
    &&& forall|x: int, y: int, c: int| 0 <= x < clip.width && 0 <= y < clip.height && 0 <= c < 4 ==>
        #[trigger] clip.at(x, y, c) == clip_at(layer, mask, x0, y0, x, y, c)
}

/// The pixels of the active layer that the selection covers, cut out to the selection's
/// bounding box, with the box's top-left corner. `None` when there is no selection or it
/// selects nothing.
pub fn selection_clip(state: &CanvasState) -> (r: Option<(u32, u32, RgbaImage)>)
    requires
        state.wf(),
        state.selection_mask matches Some(mk) ==> mk.width <= state.width && mk.height <= state.height,
    ensures
        match state.selection_mask {
            None => r is None,
            Some(mk) => {
                &&& r is None <==> !any_selected(mk)
                &&& r matches Some(t) ==> is_clip(t.2, state.layers@[state.active_layer_index as int].pixels, mk, t.0 as int, t.1 as int)
            },
        },
{
    let mask = match &state.selection_mask {
        Some(mk) => mk,
        None => return None,
    };
    let (x0, y0, x1, y1) = match selection_bounds(mask) {
        Some(b) => b,
        None => return None,
    };
    let layer = &state.layers[state.active_layer_index];
    proof {
        assert(state.layers@[state.active_layer_index as int].fits(state.width, state.height));
    }
    let cw = x1 - x0 + 1;
    let ch = y1 - y0 + 1;
    let mw = mask.width as usize;
    let dl = mask.data.len();
    let ghost wi = cw as int;
    let ghost f = |x: int, y: int, c: int| clip_at(layer.pixels, *mask, x0 as int, y0 as int, x, y, c);
    let mut out: Vec<u8> = Vec::new();
    let mut y: u32 = 0;
    while y < ch
        invariant
            mask.wf(),
            dl == mask.data@.len(),
            layer.pixels.wf(),
            mask.width <= layer.pixels.width,
            mask.height <= layer.pixels.height,
            mw == mask.width,
            is_selection_box(*mask, x0 as int, y0 as int, x1 as int, y1 as int),
            cw == x1 - x0 + 1,
            ch == y1 - y0 + 1,
            wi == cw as int,
            f == (|x: int, y: int, c: int| clip_at(layer.pixels, *mask, x0 as int, y0 as int, x, y, c)),
            y <= ch,
            out@.len() == (y * wi) * 4,
            prefix_matches(out@, wi, y * wi, f),
        decreases ch - y,
    {
        let mut x: u32 = 0;
        while x < cw
            invariant
                mask.wf(),
                dl == mask.data@.len(),
                layer.pixels.wf(),
                mask.width <= layer.pixels.width,
                mask.height <= layer.pixels.height,
                mw == mask.width,
                is_selection_box(*mask, x0 as int, y0 as int, x1 as int, y1 as int),
                cw == x1 - x0 + 1,
                ch == y1 - y0 + 1,
                wi == cw as int,
                f == (|x: int, y: int, c: int| clip_at(layer.pixels, *mask, x0 as int, y0 as int, x, y, c)),
                y < ch,
                x <= cw,
                out@.len() == (y * wi + x) * 4,
                prefix_matches(out@, wi, y * wi + x, f),
            decreases cw - x,
        {
            let mx = x0 + x;
            let my = y0 + y;
            proof {
                assert((my as int) * mw + mx < mw * mask.height) by (nonlinear_arith)
                    requires mx < mw, my < mask.height;
                assert(0 <= (my as int) * mw) by (nonlinear_arith)
                    requires 0 <= my, 0 <= mw;
            }
            let i = (my as usize) * mw + (mx as usize);
            if mask.data[i] > 0 {
                let (c0, c1, c2, c3) = get_px(&layer.pixels, mx as usize, my as usize);
                push_pixel(&mut out, c0, c1, c2, c3, Ghost(wi), Ghost(x as int), Ghost(y as int), Ghost(f));
            } else {
                push_pixel(&mut out, 0, 0, 0, 0, Ghost(wi), Ghost(x as int), Ghost(y as int), Ghost(f));
            }
            x += 1;
        }
        proof {
            lemma_row_step(wi, y as int);
        }
        y += 1;
    }
    proof {
        lemma_prefix_complete(out@, wi, ch as int, f);
    }
    let clip = RgbaImage { width: cw, height: ch, data: out };
    proof {
        assert(is_selection_box(*mask, x0 as int, y0 as int, x1 as int, y1 as int));
    }
    Some((x0, y0, clip))
}

/// Where a pasted image comes from.
#[derive(Clone, Copy, Debug, PartialEq, Eq, Structural)]
pub enum ClipboardImageSource {
    /// Copied or cut inside the application.
    Internal,
    /// Put on the system clipboard by another application.
    External,
}

/// What the in-app clipboard holds: the image, where it came from and the canvas point its
/// centre was copied from (`f32` coordinates held as bit patterns).
pub struct ClipboardPayload {
    pub image: RgbaImage,
    pub source: ClipboardImageSource,
    pub origin_center_bits: Option<[u32; 2]>,
}

/// The image chosen for a paste, with its source and origin.
pub struct ClipboardImageForPaste {
    pub image: RgbaImage,
    pub source: ClipboardImageSource,
    pub origin_center_bits: Option<[u32; 2]>,
}

/// Two images have the same size and the same bytes.
pub open spec fn same_image(a: RgbaImage, b: RgbaImage) -> bool {
    a.width == b.width && a.height == b.height && a.data@ == b.data@
}

/// `r` is the image `image` from `source`, copied at `origin`.
pub open spec fn is_paste_of(
    r: ClipboardImageForPaste,
    image: RgbaImage,
    source: ClipboardImageSource,
    origin: Option<[u32; 2]>,
) -> bool {
    same_image(r.image, image) && r.source == source && r.origin_center_bits == origin
}

/// Whether two images have the same size and the same bytes.
pub fn images_match(a: &RgbaImage, b: &RgbaImage) -> (r: bool)
    ensures
        r == same_image(*a, *b),
{
    if a.width != b.width || a.height != b.height || a.data.len() != b.data.len() {
        return false;
    }
    let n = a.data.len();
    let mut i: usize = 0;
    while i < n
        invariant
            n == a.data@.len(),
            n == b.data@.len(),
            i <= n,
            forall|j: int| 0 <= j < i ==> #[trigger] a.data@[j] == b.data@[j],
        decreases n - i,
    {
        if a.data[i] != b.data[i] {
            return false;
        }
        i += 1;
    }
    proof {
        assert(a.data@ =~= b.data@);
    }
    true
}

/// The first rule of choosing what to paste: a copy made inside the application a moment
/// ago (`copied_recently`, which the caller reads off the clock) is pasted as it is, with
/// its origin, whatever the system clipboard holds. `None` when that rule does not apply.
pub fn recent_internal_paste(internal: &Option<ClipboardPayload>, copied_recently: bool) -> (r: Option<ClipboardImageForPaste>)
    ensures
        r is Some <==> (internal matches Some(p) && p.source == ClipboardImageSource::Internal && copied_recently),
        r matches Some(q) ==> internal matches Some(p) && is_paste_of(q, p.image, p.source, p.origin_center_bits),
{
    match internal {
        Some(p) => {
            if copied_recently && p.source == ClipboardImageSource::Internal {
                Some(ClipboardImageForPaste {
                    image: p.image.duplicate(),
                    source: p.source,
                    origin_center_bits: p.origin_center_bits,
                })
            } else {
                None
            }
        },
        None => None,
    }
}

/// The remaining rules of choosing what to paste, given what the system clipboard holds:
/// an image there that matches the in-app one byte for byte is the in-app copy, with its
/// source and origin; a different image there is pasted as external, with no origin; with
/// nothing there, the in-app payload is pasted, if any.
pub fn resolve_paste(internal: Option<ClipboardPayload>, system: Option<RgbaImage>) -> (r: Option<ClipboardImageForPaste>)
    ensures
        match system {
            Some(s) => match internal {
                Some(p) => if same_image(s, p.image) {
                    r matches Some(q) && is_paste_of(q, p.image, p.source, p.origin_center_bits)
                } else {
                    r matches Some(q) && is_paste_of(q, s, ClipboardImageSource::External, None)
                },
                None => r matches Some(q) && is_paste_of(q, s, ClipboardImageSource::External, None),
            },
            None => match internal {
                Some(p) => r matches Some(q) && is_paste_of(q, p.image, p.source, p.origin_center_bits),
                None => r is None,
            },
        },
{
    match system {
        Some(system_img) => {
            match internal {
                Some(p) => {
                    if images_match(&system_img, &p.image) {
                        Some(ClipboardImageForPaste { image: p.image, source: p.source, origin_center_bits: p.origin_center_bits })
                    } else {
                        Some(ClipboardImageForPaste { image: system_img, source: ClipboardImageSource::External, origin_center_bits: None })
                    }
                },
                None => Some(ClipboardImageForPaste { image: system_img, source: ClipboardImageSource::External, origin_center_bits: None }),
            }
        },
        None => match internal {
            Some(p) => Some(ClipboardImageForPaste { image: p.image, source: p.source, origin_center_bits: p.origin_center_bits }),
            None => None,
        },
    }
}

/// `[i, j)` is a line of `text`: it starts at the beginning or after a newline and runs up
/// to the next newline or the end.
pub open spec fn is_line(text: Seq<char>, i: int, j: int) -> bool {
    &&& 0 <= i <= j <= text.len()
    &&& (i == 0 || text[i - 1] == '\n')
    &&& (j == text.len() || text[j] == '\n')
    &&& forall|k: int| i <= k < j ==> text[k] != '\n'
}

/// Some line of `text`, without its surrounding white space, reads `m`.
pub open spec fn lists_type(text: Seq<char>, m: Seq<char>) -> bool {
    exists|i: int, j: int| #[trigger] is_line(text, i, j) && trim(text.subrange(i, j)) == m
}

/// The image types asked of the system clipboard, most preferred first.
pub open spec fn preferred_image_types() -> Seq<Seq<char>> {
    seq!["image/png"@, "image/webp"@, "image/jpeg"@, "image/bmp"@, "image/tiff"@]
}

/// The first of the preferred image types, from the `k`-th on, that `text` lists.
pub open spec fn first_listed_from(text: Seq<char>, k: int) -> Option<Seq<char>>
    decreases 5 - k,
{
    if k < 0 || k >= 5 {
        None
    } else if lists_type(text, preferred_image_types()[k]) {
        Some(preferred_image_types()[k])
    } else {
        first_listed_from(text, k + 1)
    }
}

/// Whether a line of `text`, trimmed, reads `m`.
fn lists(text: &Vec<char>, m: &Vec<char>) -> (r: bool)
    ensures
        r == lists_type(text@, m@),
{
    let n = text.len();
    let mut i: usize = 0;
    loop
        invariant
            n == text@.len(),
            i <= n,
            i == 0 || text@[i - 1] == '\n',
            forall|a: int, b: int| #[trigger] is_line(text@, a, b) && a < i ==> trim(text@.subrange(a, b)) != m@,
        decreases n - i,
    {
        let mut j: usize = i;
        while j < n && text[j] != '\n'
            invariant
                n == text@.len(),
                i <= j <= n,
                forall|k: int| i <= k < j ==> text@[k] != '\n',
            decreases n - j,
        {
            j += 1;
        }
        let line = sub_chars(text, i, j);
        let (lo, hi) = trim_range(&line);
        proof {
            assert(is_line(text@, i as int, j as int));
            assert(line@ == text@.subrange(i as int, j as int));
        }
        if hi - lo == m.len() && occurs_at(&line, m, lo) {
            return true;
        }
        proof {
            assert(trim(text@.subrange(i as int, j as int)) != m@);
            assert forall|a: int, b: int| #[trigger] is_line(text@, a, b) && a < j + 1 implies trim(text@.subrange(a, b)) != m@ by {
                if a == i {
                    if b < j {
                        assert(text@[b] != '\n');
                    } else if b > j {
                        assert(text@[j as int] != '\n');
                    }
                } else if a > i {
                    assert(text@[a - 1] != '\n');
                }
            }
        }
        if j == n {
            return false;
        }
        i = j + 1;
    }
}

/// The most preferred image type that the system clipboard's list of types (one per line,
/// surrounding white space ignored) offers: PNG, then WebP, JPEG, BMP and TIFF.
pub fn preferred_image_type(mime_list: &str) -> (r: Option<&'static str>)
    ensures
        match first_listed_from(mime_list@, 0) {
            Some(t) => r matches Some(x) && x@ == t,
            None => r is None,
        },
{
    let text = chars_of(mime_list);
    let types: [&'static str; 5] = ["image/png", "image/webp", "image/jpeg", "image/bmp", "image/tiff"];
    proof {
        assert(types@.map_values(|t: &str| t@) =~= preferred_image_types());
    }
    let mut k: usize = 0;
    while k < 5
        invariant
            text@ == mime_list@,
            types@.map_values(|t: &str| t@) == preferred_image_types(),
            k <= 5,
            first_listed_from(mime_list@, 0) == first_listed_from(mime_list@, k as int),
        decreases 5 - k,
    {
        let t = types[k];
        let tc = chars_of(t);
        proof {
            assert(t@ == preferred_image_types()[k as int]);
        }
        if lists(&text, &tc) {
            return Some(t);
        }
        k += 1;
    }
    None
}

/// `image::load_from_memory` (format guessed from the leading bytes) followed by
/// `DynamicImage::to_rgba8`. Claimed: a decoded image holds `width * height * 4` bytes, as
/// the decoders fill a buffer of exactly `total_bytes` and `to_rgba8` copies or converts
/// it pixel for pixel. Which image comes back, and whether decoding succeeds, is not
/// stated: the JPEG and WebP decoders may take paths that depend on the processor.
#[verifier::external_body]
fn decode_image_bytes(bytes: &[u8]) -> (r: Option<RgbaImage>)
    ensures
        r matches Some(img) ==> img.wf(),
{
    match image::load_from_memory(bytes) {
        Ok(decoded) => {
            let buf = decoded.to_rgba8();
            Some(RgbaImage { width: buf.width(), height: buf.height(), data: buf.into_raw() })
        },
        Err(_) => None,
    }
}

/// The image held by the bytes that the system clipboard handed over for an image type:
/// nothing when no bytes came, else whatever they decode to.
pub fn clipboard_image_from_bytes(bytes: &[u8]) -> (r: Option<RgbaImage>)
    ensures
        bytes@.len() == 0 ==> r is None,
        r matches Some(img) ==> img.wf(),
{
    if bytes.len() == 0 {
        return None;
    }
    decode_image_bytes(bytes)
}

/// Name for what `image::DynamicImage::write_to` with `ImageFormat::Png` writes for the
/// `width` by `height` RGBA buffer `data`: `None` when it reports an error.
pub uninterp spec fn png_encoded(width: u32, height: u32, data: Seq<u8>) -> Option<Seq<u8>>;

/// `Some(v@)` for `Some(v)`.
pub open spec fn bytes_view(r: Option<Vec<u8>>) -> Option<Seq<u8>> {
    match r {
        Some(v) => Some(v@),
        None => None,
    }
}

/// `image::DynamicImage::write_to(.., ImageFormat::Png)` on the image, into a `Vec`.
/// Claimed: the bytes written, or `None` on an error, are `png_encoded` of the image's
/// size and pixels (the encoder draws on nothing else).
#[verifier::external_body]
fn encode_png(img: &RgbaImage) -> (r: Option<Vec<u8>>)
    requires
        img.wf(),
    ensures
        bytes_view(r) == png_encoded(img.width, img.height, img.data@),
{
    let buf = image::RgbaImage::from_raw(img.width, img.height, img.data.clone()).unwrap();
    let mut out = std::io::Cursor::new(Vec::<u8>::new());
    match image::DynamicImage::ImageRgba8(buf).write_to(&mut out, image::ImageFormat::Png) {
        Ok(()) => Some(out.into_inner()),
        Err(_) => None,
    }
}

/// The PNG file that a copy hands to the system clipboard for `img`, or `None` when
/// encoding fails (and nothing is copied that way).
pub fn clipboard_png_bytes(img: &RgbaImage) -> (r: Option<Vec<u8>>)
    requires
        img.wf(),
    ensures
        bytes_view(r) == png_encoded(img.width, img.height, img.data@),
{
    encode_png(img)
}

} // verus!

use paintfe::canvas::{CanvasState, Layer, LayerContent};
use paintfe::raster::RgbaImage;
use paintfe::scripting::ScriptFilterType;
use paintfe::transform::{
    anchor_offset_exec, flip_canvas_horizontal, flip_horizontal, flip_layer_horizontal,
    flip_layer_vertical, flip_vertical, pad_region, resize_canvas, resize_canvas_layers,
    resize_image, resize_layers, resize_rgba, rotate180, rotate270, rotate90, rotate_canvas_90ccw,
    rotate_canvas_90cw, Interpolation,
};

/// A `w` by `h` image whose pixel `(x, y)` is `[x, y, x + 10 * y, 255]`.
fn ramp(w: u32, h: u32) -> RgbaImage {
    let mut data = Vec::new();
    for y in 0..h {
        for x in 0..w {
            data.extend_from_slice(&[x as u8, y as u8, (x + 10 * y) as u8, 255]);
        }
    }
    RgbaImage { width: w, height: h, data }
}

fn px(img: &RgbaImage, x: u32, y: u32) -> [u8; 4] {
    let i = ((y * img.width + x) * 4) as usize;
    [img.data[i], img.data[i + 1], img.data[i + 2], img.data[i + 3]]
}

fn layer(img: RgbaImage, name: &str) -> Layer {
    Layer { name: name.to_string(), pixels: img, visible: true, opacity: 255, content: LayerContent::Raster }
}

fn canvas(w: u32, h: u32, n: usize) -> CanvasState {
    let layers = (0..n).map(|i| layer(ramp(w, h), &format!("L{}", i))).collect();
    CanvasState { width: w, height: h, layers, active_layer_index: 0, selection_mask: None, dirty: false }
}

#[test]
fn flip_horizontal_mirrors_columns() {
    let img = ramp(3, 2);
    let out = flip_horizontal(&img);
    assert_eq!((out.width, out.height), (3, 2));
    assert_eq!(px(&out, 0, 0), px(&img, 2, 0));
    assert_eq!(px(&out, 2, 1), px(&img, 0, 1));
    assert_eq!(px(&out, 1, 1), px(&img, 1, 1));
}

#[test]
fn flip_vertical_mirrors_rows() {
    let img = ramp(2, 3);
    let out = flip_vertical(&img);
    assert_eq!(px(&out, 0, 0), px(&img, 0, 2));
    assert_eq!(px(&out, 1, 2), px(&img, 1, 0));
}

#[test]
fn rotate90_turns_clockwise() {
    // 3 wide, 2 high: the result is 2 wide, 3 high; the old bottom-left pixel is the new top-left.
    let img = ramp(3, 2);
    let out = rotate90(&img);
    assert_eq!((out.width, out.height), (2, 3));
    assert_eq!(px(&out, 0, 0), px(&img, 0, 1));
    assert_eq!(px(&out, 1, 0), px(&img, 0, 0));
    assert_eq!(px(&out, 1, 2), px(&img, 2, 0));
}

#[test]
fn rotate270_turns_counter_clockwise() {
    let img = ramp(3, 2);
    let out = rotate270(&img);
    assert_eq!((out.width, out.height), (2, 3));
    // The old top-right pixel becomes the new top-left.
    assert_eq!(px(&out, 0, 0), px(&img, 2, 0));
    assert_eq!(px(&out, 1, 2), px(&img, 0, 1));
}

#[test]
fn flipping_twice_restores() {
    let img = ramp(4, 3);
    assert_eq!(flip_horizontal(&flip_horizontal(&img)).data, img.data);
    assert_eq!(flip_vertical(&flip_vertical(&img)).data, img.data);
    assert_eq!(rotate180(&rotate180(&img)).data, img.data);
}

#[test]
fn quarter_turns_undo_each_other() {
    let img = ramp(4, 3);
    let back = rotate270(&rotate90(&img));
    assert_eq!((back.width, back.height), (4, 3));
    assert_eq!(back.data, img.data);
    assert_eq!(rotate90(&rotate270(&img)).data, img.data);
}

#[test]
fn two_quarter_turns_are_a_half_turn() {
    let img = ramp(4, 3);
    assert_eq!(rotate90(&rotate90(&img)).data, rotate180(&img).data);
}

#[test]
fn canvas_flip_twice_restores_every_layer() {
    let mut s = canvas(3, 2, 2);
    let before: Vec<Vec<u8>> = s.layers.iter().map(|l| l.pixels.data.clone()).collect();
    flip_canvas_horizontal(&mut s);
    assert!(s.dirty);
    assert_ne!(s.layers[0].pixels.data, before[0]);
    flip_canvas_horizontal(&mut s);
    for (l, b) in s.layers.iter().zip(before.iter()) {
        assert_eq!(&l.pixels.data, b);
    }
}

#[test]
fn canvas_rotation_swaps_size_and_comes_back() {
    let mut s = canvas(3, 2, 2);
    let before: Vec<Vec<u8>> = s.layers.iter().map(|l| l.pixels.data.clone()).collect();
    rotate_canvas_90cw(&mut s);
    assert_eq!((s.width, s.height), (2, 3));
    assert_eq!((s.layers[1].pixels.width, s.layers[1].pixels.height), (2, 3));
    rotate_canvas_90ccw(&mut s);
    assert_eq!((s.width, s.height), (3, 2));
    for (l, b) in s.layers.iter().zip(before.iter()) {
        assert_eq!(&l.pixels.data, b);
    }
}

#[test]
fn layer_flip_touches_only_that_layer() {
    let mut s = canvas(3, 2, 2);
    let other = s.layers[0].pixels.data.clone();
    flip_layer_horizontal(&mut s, 1);
    assert_eq!(s.layers[0].pixels.data, other);
    assert_eq!(px(&s.layers[1].pixels, 0, 0), [2, 0, 2, 255]);
    flip_layer_vertical(&mut s, 7);
    assert!(s.dirty);
    assert_eq!(s.layers[0].pixels.data, other);
}

#[test]
fn anchor_offsets_round_toward_zero() {
    assert_eq!(anchor_offset_exec(0, 10, 4), 0);
    assert_eq!(anchor_offset_exec(1, 10, 4), 3);
    assert_eq!(anchor_offset_exec(1, 2, 5), -1);
    assert_eq!(anchor_offset_exec(2, 2, 5), -3);
    assert_eq!(anchor_offset_exec(2, 9, 4), 5);
}

#[test]
fn pad_region_places_content_and_fills() {
    let img = ramp(1, 1);
    let out = pad_region(&img, 1, 1, 3, 3, 1, 1, [9, 9, 9, 9]);
    assert_eq!((out.width, out.height), (3, 3));
    assert_eq!(px(&out, 1, 1), [0, 0, 0, 255]);
    assert_eq!(px(&out, 0, 0), [9, 9, 9, 9]);
    assert_eq!(px(&out, 2, 2), [9, 9, 9, 9]);
}

#[test]
fn resize_canvas_centres_old_content() {
    let mut s = canvas(2, 2, 1);
    resize_canvas(&mut s, 4, 4, (1, 1), [0, 0, 0, 0]);
    assert_eq!((s.width, s.height), (4, 4));
    let p = &s.layers[0].pixels;
    assert_eq!(px(p, 1, 1), [0, 0, 0, 255]);
    assert_eq!(px(p, 2, 2), [1, 1, 11, 255]);
    assert_eq!(px(p, 0, 0), [0, 0, 0, 0]);
    assert_eq!(px(p, 3, 3), [0, 0, 0, 0]);
}

#[test]
fn resize_canvas_crops_at_bottom_right_anchor() {
    let out = resize_canvas_layers(vec![ramp(3, 3)], 3, 3, 2, 2, (2, 2), [5, 5, 5, 5]);
    assert_eq!(out.len(), 1);
    assert_eq!(px(&out[0], 0, 0), [1, 1, 11, 255]);
    assert_eq!(px(&out[0], 1, 1), [2, 2, 22, 255]);
}

#[test]
fn resampling_changes_the_size() {
    let img = ramp(2, 2);
    let out = resize_rgba(&img, 4, 3, ScriptFilterType::Nearest);
    assert_eq!((out.width, out.height), (4, 3));
    assert_eq!(out.data.len(), 4 * 3 * 4);
    let same = resize_rgba(&img, 2, 2, ScriptFilterType::Lanczos);
    assert_eq!(same.data, img.data);
}

#[test]
fn resize_image_resamples_every_layer() {
    let mut s = canvas(2, 2, 2);
    resize_image(&mut s, 1, 1, Interpolation::Bilinear);
    assert_eq!((s.width, s.height), (1, 1));
    for l in &s.layers {
        assert_eq!(l.pixels.data.len(), 4);
    }
    let out = resize_layers(vec![ramp(2, 2)], 3, 1, Interpolation::Nearest);
    assert_eq!((out[0].width, out[0].height), (3, 1));
    assert_eq!(Interpolation::Lanczos3.to_filter(), ScriptFilterType::Lanczos);
}

#[test]
fn growing_then_shrinking_restores() {
    for anchor in [(0, 0), (1, 1), (2, 2), (1, 2), (2, 0)] {
        let mut s = canvas(3, 2, 2);
        let before: Vec<Vec<u8>> = s.layers.iter().map(|l| l.pixels.data.clone()).collect();
        resize_canvas(&mut s, 8, 5, anchor, [9, 9, 9, 9]);
        resize_canvas(&mut s, 3, 2, anchor, [1, 2, 3, 4]);
        let after: Vec<Vec<u8>> = s.layers.iter().map(|l| l.pixels.data.clone()).collect();
        assert_eq!((s.width, s.height), (3, 2));
        assert_eq!(after, before);
    }
}

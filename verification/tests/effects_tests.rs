use paintfe::canvas::{CanvasState, Layer, LayerContent};
use paintfe::effects::{
    canvas_border, canvas_border_core, hash_u32, median_core, median_filter, oil_painting, oil_painting_core,
    oil_painting_from_flat, pixelate,
    pixelate_core, pixelate_from_flat, rgb_displace_core,
};
use paintfe::raster::{GrayImage, RgbaImage};

fn grey_row(vals: &[u8]) -> RgbaImage {
    let mut data = Vec::new();
    for &v in vals {
        data.extend_from_slice(&[v, v, v, 255]);
    }
    RgbaImage { width: vals.len() as u32, height: 1, data }
}

fn ramp(w: u32, h: u32) -> RgbaImage {
    let mut data = Vec::new();
    for y in 0..h {
        for x in 0..w {
            data.extend_from_slice(&[x as u8, y as u8, (x + 10 * y) as u8, 255]);
        }
    }
    RgbaImage { width: w, height: h, data }
}

fn px(img: &RgbaImage, x: u32, y: u32) -> [u8; 4] {
    let i = ((y * img.width + x) * 4) as usize;
    [img.data[i], img.data[i + 1], img.data[i + 2], img.data[i + 3]]
}

#[test]
fn pixelate_takes_block_centres() {
    let img = grey_row(&[10, 20, 30, 40]);
    let out = pixelate_core(&img, 2, None);
    assert_eq!(out.data, grey_row(&[20, 20, 40, 40]).data);
    // A block size below 2 is raised to 2.
    assert_eq!(pixelate_core(&img, 0, None).data, out.data);
}

#[test]
fn pixelate_respects_the_selection() {
    let img = grey_row(&[10, 20, 30, 40]);
    let mask = GrayImage { width: 4, height: 1, data: vec![0, 255, 0, 255] };
    let out = pixelate_core(&img, 2, Some(&mask));
    assert_eq!(out.data, grey_row(&[10, 20, 30, 40]).data);
    let mask = GrayImage { width: 4, height: 1, data: vec![255, 0, 255, 0] };
    let out = pixelate_core(&img, 2, Some(&mask));
    assert_eq!(out.data, grey_row(&[20, 20, 40, 40]).data);
}

#[test]
fn median_of_window() {
    let img = grey_row(&[10, 50, 20]);
    let out = median_core(&img, 1, None);
    assert_eq!(out.data, grey_row(&[10, 20, 20]).data);
}

#[test]
fn border_paints_edges_only() {
    let img = ramp(3, 3);
    let out = canvas_border_core(&img, 1, [1, 2, 3, 4], None);
    assert_eq!(px(&out, 0, 0), [1, 2, 3, 4]);
    assert_eq!(px(&out, 2, 1), [1, 2, 3, 4]);
    assert_eq!(px(&out, 1, 1), px(&img, 1, 1));
    // Width 0 is raised to 1; a width beyond the image paints everything.
    assert_eq!(canvas_border_core(&img, 0, [1, 2, 3, 4], None).data, out.data);
    let all = canvas_border_core(&img, 9, [7, 7, 7, 7], None);
    assert_eq!(all.data, vec![7; 36]);
}

#[test]
fn displacement_shifts_colour_channels() {
    let img = ramp(3, 1);
    let out = rgb_displace_core(&img, (1, 0), (0, 0), (-1, 0), None);
    // Red comes from one pixel to the right (clamped), blue from one to the left.
    assert_eq!(px(&out, 0, 0), [1, 0, 0, 255]);
    assert_eq!(px(&out, 2, 0), [2, 0, 1, 255]);
}

#[test]
fn oil_painting_keeps_a_flat_image() {
    let img = grey_row(&[100, 100, 100]);
    let out = oil_painting_core(&img, 2, 20, None);
    assert_eq!(out.data, img.data);
}

fn state() -> CanvasState {
    let l = |img: RgbaImage| Layer { name: "x".to_string(), pixels: img, visible: true, opacity: 255, content: LayerContent::Raster };
    CanvasState {
        width: 4,
        height: 1,
        layers: vec![l(grey_row(&[10, 20, 30, 40])), l(grey_row(&[1, 2, 3, 4]))],
        active_layer_index: 0,
        selection_mask: None,
        dirty: false,
    }
}

#[test]
fn layer_effects_replace_only_their_layer() {
    let mut s = state();
    pixelate(&mut s, 0, 2);
    assert_eq!(s.layers[0].pixels.data, grey_row(&[20, 20, 40, 40]).data);
    assert_eq!(s.layers[1].pixels.data, grey_row(&[1, 2, 3, 4]).data);
    assert!(s.dirty);
    let mut t = state();
    median_filter(&mut t, 9, 1);
    assert!(!t.dirty);
    canvas_border(&mut t, 1, 1, [0, 0, 0, 0]);
    assert_eq!(t.layers[1].pixels.data, vec![0; 16]);
    let mut u = state();
    let flat = grey_row(&[5, 6, 7, 8]);
    pixelate_from_flat(&mut u, 1, 2, &flat);
    assert_eq!(u.layers[1].pixels.data, grey_row(&[6, 6, 8, 8]).data);
}

#[test]
fn coordinate_hash_values() {
    assert_eq!(hash_u32(0), 0);
    assert_eq!(hash_u32(1), 2462723854);
    assert_eq!(hash_u32(12345), 3482632982);
}

#[test]
fn pixelating_twice_is_pixelating_once() {
    let img = ramp(7, 5);
    let mask = GrayImage { width: 7, height: 5, data: (0..35).map(|i| if i % 3 == 0 { 0 } else { 255 }).collect() };
    for bs in [2, 3, 4] {
        let once = pixelate_core(&img, bs, Some(&mask));
        let twice = pixelate_core(&once, bs, Some(&mask));
        assert_eq!(twice.data, once.data);
        let plain = pixelate_core(&img, bs, None);
        assert_eq!(pixelate_core(&plain, bs, None).data, plain.data);
    }
}

#[test]
fn oil_painting_keeps_a_single_colour() {
    let mut data = Vec::new();
    for _ in 0..12 {
        data.extend_from_slice(&[90, 140, 37, 200]);
    }
    let img = RgbaImage { width: 4, height: 3, data };
    for (r, l) in [(1, 2), (3, 20), (10, 64)] {
        assert_eq!(oil_painting_core(&img, r, l, None).data, img.data);
    }
}

#[test]
fn oil_painting_in_place_and_from_flat_agree() {
    let mut a = state();
    let flat = RgbaImage { width: a.layers[0].pixels.width, height: a.layers[0].pixels.height, data: a.layers[0].pixels.data.clone() };
    let core = oil_painting_core(&flat, 1, 4, None);
    oil_painting(&mut a, 0, 1, 4);
    assert_eq!(a.layers[0].pixels.data, core.data);
    let mut b = state();
    oil_painting_from_flat(&mut b, 0, 1, 4, &flat);
    assert_eq!(b.layers[0].pixels.data, a.layers[0].pixels.data);
}

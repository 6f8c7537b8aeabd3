use paintfe::canvas::{CanvasState, Layer, LayerContent};
use paintfe::raster::RgbaImage;
use paintfe::scripting::{
    anchor_from_lowercase, apply_canvas_ops, filter_from_lowercase, parse_anchor,
    parse_script_filter, region_bounds, write_callback_result, CanvasOpRequest, ScriptContext,
    ScriptFilterType,
};

fn ramp(w: u32, h: u32) -> Vec<u8> {
    let mut data = Vec::new();
    for y in 0..h {
        for x in 0..w {
            data.extend_from_slice(&[x as u8, y as u8, (x + 10 * y) as u8, 255]);
        }
    }
    data
}

fn ctx(w: u32, h: u32) -> ScriptContext {
    ScriptContext { pixels: ramp(w, h), width: w, height: h, mask: None, rng_state: 1, canvas_ops: Vec::new() }
}

#[test]
fn filter_names_ignore_case() {
    assert_eq!(parse_script_filter("NEAREST"), ScriptFilterType::Nearest);
    assert_eq!(parse_script_filter("nn"), ScriptFilterType::Nearest);
    assert_eq!(parse_script_filter("CatmullRom"), ScriptFilterType::Bicubic);
    assert_eq!(parse_script_filter("Lanczos3"), ScriptFilterType::Lanczos);
    assert_eq!(parse_script_filter("bilinear"), ScriptFilterType::Bilinear);
    assert_eq!(parse_script_filter("whatever"), ScriptFilterType::Bilinear);
    assert_eq!(filter_from_lowercase(&"bicubic".to_string()), ScriptFilterType::Bicubic);
    assert_eq!(filter_from_lowercase(&"Bicubic".to_string()), ScriptFilterType::Bilinear);
}

#[test]
fn anchor_names_ignore_case() {
    assert_eq!(parse_anchor("Center"), (1, 1));
    assert_eq!(parse_anchor("BR"), (2, 2));
    assert_eq!(parse_anchor("top"), (1, 0));
    assert_eq!(parse_anchor("W"), (0, 1));
    assert_eq!(parse_anchor("bottom-center"), (1, 2));
    assert_eq!(parse_anchor("ne"), (2, 0));
    assert_eq!(parse_anchor("nowhere"), (0, 0));
    assert_eq!(anchor_from_lowercase(&"SE".to_string()), (0, 0));
}

#[test]
fn pixel_reads_and_writes() {
    let mut c = ctx(3, 2);
    assert_eq!(c.get_pixel(2, 1), [2, 1, 12, 255]);
    assert_eq!(c.get_pixel(3, 0), [0, 0, 0, 0]);
    assert_eq!(c.get_pixel(-1, 0), [0, 0, 0, 0]);
    c.set_pixel(0, 0, 300, -1, 128, 255);
    assert_eq!(c.get_pixel(0, 0), [255, 0, 128, 255]);
    c.set_pixel(5, 5, 1, 1, 1, 1);
    assert_eq!(c.pixels.len(), 24);
    assert_eq!(c.get_channel(1, 1, 2), 11);
    c.set_channel(1, 1, 2, 999);
    assert_eq!(c.get_channel(1, 1, 2), 255);
    assert_eq!(c.get_channel(9, 1, 0), 0);
}

#[test]
fn short_buffer_reads_as_zero() {
    let mut c = ctx(2, 1);
    c.pixels.truncate(6);
    assert_eq!(c.get_pixel(1, 0), [0, 0, 0, 0]);
    assert_eq!(c.get_channel(1, 0, 1), 0);
    assert_eq!(c.get_channel(1, 0, 0), 1);
}

#[test]
fn invert_twice_restores() {
    let mut c = ctx(3, 2);
    let before = c.pixels.clone();
    c.invert();
    assert_eq!(c.get_pixel(1, 1), [254, 254, 244, 255]);
    c.invert();
    assert_eq!(c.pixels, before);
}

#[test]
fn desaturate_uses_integer_luma() {
    let mut c = ScriptContext { pixels: vec![100, 150, 200, 77, 9], width: 1, height: 1, mask: None, rng_state: 0, canvas_ops: Vec::new() };
    c.desaturate();
    assert_eq!(c.pixels, vec![140, 140, 140, 77, 9]);
}

#[test]
fn rectangle_selection_and_fill() {
    let mut c = ctx(3, 2);
    assert!(!c.has_selection());
    assert!(c.is_selected(2, 1));
    c.select_rect(1, 0, 3, 1);
    assert_eq!(c.mask, Some(vec![0, 255, 255, 0, 0, 0]));
    assert!(c.is_selected(1, 0));
    assert!(!c.is_selected(0, 0));
    assert!(!c.is_selected(5, 0));
    c.fill_selected(10, 20, 30, 400);
    assert_eq!(c.get_pixel(1, 0), [10, 20, 30, 255]);
    assert_eq!(c.get_pixel(2, 0), [10, 20, 30, 255]);
    assert_eq!(c.get_pixel(0, 0), [0, 0, 0, 255]);
    c.delete_selected();
    assert_eq!(c.get_pixel(2, 0), [0, 0, 0, 0]);
    assert_eq!(c.get_pixel(1, 1), [1, 1, 11, 255]);
    c.select_rect(-5, -5, 100, 100);
    assert_eq!(c.mask, Some(vec![255; 6]));
    c.clear_selection();
    assert_eq!(c.mask, None);
}

#[test]
fn inverting_selection() {
    let mut c = ctx(3, 2);
    c.invert_selection();
    assert_eq!(c.mask, Some(vec![0; 6]));
    c.select_rect(0, 0, 1, 2);
    let m = c.mask.clone();
    c.invert_selection();
    assert_eq!(c.mask, Some(vec![0, 255, 255, 0, 255, 255]));
    c.invert_selection();
    assert_eq!(c.mask, m);
}

#[test]
fn random_integers_follow_xorshift() {
    let mut c = ctx(1, 1);
    assert_eq!(c.rand_int(5, 5), 5);
    assert_eq!(c.rng_state, 1);
    assert_eq!(c.rand_int(10, 20), 11);
    assert_eq!(c.rng_state, 1082269761);
    assert_eq!(c.next_random(), 1152992998833853505);
    for _ in 0..100 {
        let v = c.rand_int(-3, 4);
        assert!((-3..4).contains(&v));
    }
}

#[test]
fn canvas_transforms_are_recorded() {
    let mut c = ctx(3, 2);
    c.flip_horizontal();
    assert!(c.canvas_ops.is_empty());
    assert_eq!(c.get_pixel(0, 0), [2, 0, 2, 255]);
    c.rotate_canvas_90cw();
    assert_eq!((c.width, c.height), (2, 3));
    c.flip_canvas_vertical();
    c.rotate_canvas_180();
    c.rotate_canvas_90ccw();
    c.flip_canvas_horizontal();
    assert_eq!((c.width, c.height), (3, 2));
    assert_eq!(c.canvas_ops.len(), 5);
    assert!(matches!(c.canvas_ops[0], CanvasOpRequest::Rotate90CW));
    assert!(matches!(c.canvas_ops[4], CanvasOpRequest::FlipHorizontal));
}

#[test]
fn rotation_swaps_size_even_when_buffer_is_short() {
    let mut c = ctx(3, 2);
    c.pixels.truncate(10);
    c.rotate_canvas_90cw();
    assert_eq!((c.width, c.height), (2, 3));
    assert_eq!(c.pixels.len(), 10);
    assert_eq!(c.canvas_ops.len(), 1);
}

#[test]
fn script_resize_image() {
    let mut c = ctx(2, 2);
    c.resize_image(2, 2, "nearest");
    assert!(c.canvas_ops.is_empty());
    c.resize_image(4, 0, "NEAREST");
    assert_eq!((c.width, c.height), (4, 1));
    assert_eq!(c.pixels.len(), 16);
    match c.canvas_ops[0] {
        CanvasOpRequest::ResizeImage { w, h, filter } => {
            assert_eq!((w, h), (4, 1));
            assert_eq!(filter, ScriptFilterType::Nearest);
        }
        _ => panic!("expected a resize request"),
    }
    c.resize_image(100000, 3, "bilinear");
    assert_eq!((c.width, c.height), (32768, 3));
}

#[test]
fn script_resize_canvas() {
    let mut c = ctx(2, 2);
    c.resize_canvas(4, 1, "TL");
    assert_eq!((c.width, c.height), (4, 1));
    assert_eq!(c.pixels, vec![0, 0, 0, 255, 1, 0, 1, 255, 0, 0, 0, 0, 0, 0, 0, 0]);
    match c.canvas_ops[0] {
        CanvasOpRequest::ResizeCanvas { new_w, new_h, anchor } => {
            assert_eq!((new_w, new_h, anchor), (4, 1, (0, 0)));
        }
        _ => panic!("expected a canvas request"),
    }
    let mut d = ctx(2, 2);
    d.resize_canvas(2, 1, "bottom");
    assert_eq!(d.pixels, vec![0, 1, 10, 255, 1, 1, 11, 255]);
}

#[test]
fn replayed_ops_match_the_working_layer() {
    let (w, h) = (3u32, 2u32);
    let mut c = ctx(w, h);
    c.rotate_canvas_90cw();
    c.flip_canvas_horizontal();
    c.resize_canvas(4, 4, "center");
    c.rotate_canvas_180();
    let mk = |data: Vec<u8>, w: u32, h: u32| Layer {
        name: "x".to_string(),
        pixels: RgbaImage { width: w, height: h, data },
        visible: true,
        opacity: 255,
        content: LayerContent::Raster,
    };
    let mut state = CanvasState {
        width: w,
        height: h,
        layers: vec![mk(c.pixels.clone(), c.width, c.height), mk(ramp(w, h), w, h), mk(ramp(w, h), w, h)],
        active_layer_index: 0,
        selection_mask: None,
        dirty: false,
    };
    apply_canvas_ops(&mut state, 0, &c.canvas_ops);
    assert_eq!((state.width, state.height), (4, 4));
    assert_eq!(state.layers[1].pixels.data, c.pixels);
    assert_eq!(state.layers[2].pixels.data, c.pixels);
    assert_eq!(state.layers[0].pixels.data, c.pixels);
}

#[test]
fn callback_results_are_clamped() {
    let mut p = vec![1, 2, 3, 4, 5, 6, 7, 8];
    write_callback_result(&mut p, 4, &Some(vec![Some(300), None, Some(-5), Some(9)]));
    assert_eq!(p, vec![1, 2, 3, 4, 255, 6, 0, 9]);
    write_callback_result(&mut p, 0, &Some(vec![Some(1)]));
    write_callback_result(&mut p, 0, &None);
    assert_eq!(p, vec![1, 2, 3, 4, 255, 6, 0, 9]);
}

#[test]
fn region_bounds_clamp_to_canvas() {
    assert_eq!(region_bounds(-3, 2, 10, 100, 5, 6), (0, 2, 5, 6));
    assert_eq!(region_bounds(1, 1, 2, 2, 5, 6), (1, 1, 3, 3));
}

#[test]
fn random_integers_over_the_whole_i64_range() {
    let mut c = ctx(1, 1);
    assert_eq!(c.rand_int(i64::MIN, i64::MAX), i64::MIN + 1082269761);
    assert_eq!(c.rng_state, 1082269761);
}

#[test]
fn region_bounds_wrap_at_the_end_of_i64() {
    assert_eq!(region_bounds(i64::MAX, 0, 1, 1, 5, 6), (u32::MAX, 0, 0, 1));
}

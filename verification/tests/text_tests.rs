use paintfe::effect_settings::{
    zoom_quality_samples, AddNoiseDialog, ColorFilterDialog, ColorFilterMode, GridDialog, GridStyle,
    HalftoneDialog, HalftoneShape, NoiseType, OutlineDialog, OutlineMode,
};
use paintfe::outline::outline_probe;
use paintfe::raster::{GrayImage, RgbaImage};
use paintfe::text::TextAlignment;
use paintfe::text_block::{GlyphOverride, TextBlock, TextRun, TextStyle};
use paintfe::text_layer_data::TextLayerData;
use paintfe::text_layer::{
    blit_rgba_buffer, composite_over, find_tight_bounds_rgba, trim_to_content, RunPosition,
    TextSelection, TextWarpKind,
};

fn pos(run_index: usize, byte_offset: usize) -> RunPosition {
    RunPosition { run_index, byte_offset }
}

fn style(weight: u16) -> TextStyle {
    TextStyle {
        font_family: "Sans".to_string(),
        font_weight: weight,
        font_size_bits: 48.0f32.to_bits(),
        italic: false,
        underline: false,
        strikethrough: false,
        color: [255, 255, 255, 255],
        letter_spacing_bits: 0.0f32.to_bits(),
        baseline_offset_bits: 0.0f32.to_bits(),
        width_scale_bits: 1.0f32.to_bits(),
        height_scale_bits: 1.0f32.to_bits(),
    }
}

fn styled(parts: &[(&str, u16)]) -> TextBlock {
    TextBlock {
        id: 0,
        position_bits: [0, 0],
        rotation_bits: 0,
        runs: parts.iter().map(|(t, w)| TextRun { text: t.to_string(), style: style(*w) }).collect(),
        glyph_overrides: Vec::new(),
    }
}

fn block(texts: &[&str]) -> TextBlock {
    let parts: Vec<(&str, u16)> = texts.iter().enumerate().map(|(i, t)| (*t, 100 * i as u16)).collect();
    styled(&parts)
}

fn texts_and_weights(b: &TextBlock) -> Vec<(String, u16)> {
    b.runs.iter().map(|r| (r.text.clone(), r.style.font_weight)).collect()
}

#[test]
fn selection_collapse() {
    let mut s = TextSelection { anchor: pos(0, 1), cursor: pos(1, 2) };
    assert!(s.has_selection());
    s.collapse_to_cursor();
    assert!(!s.has_selection());
    assert_eq!(s.cursor, pos(1, 2));
    assert_eq!(s.anchor, pos(1, 2));
}

#[test]
fn run_positions_and_flat_offsets() {
    let b = block(&["ab", "", "c\u{e9}d"]);
    assert_eq!(b.flat_text(), "abc\u{e9}d");
    assert_eq!(b.char_count(), 5);
    assert_eq!(b.flat_offset_to_run_pos(0), pos(0, 0));
    assert_eq!(b.flat_offset_to_run_pos(2), pos(0, 2));
    assert_eq!(b.flat_offset_to_run_pos(3), pos(2, 1));
    assert_eq!(b.flat_offset_to_run_pos(99), pos(2, 4));
    assert_eq!(b.run_pos_to_flat_offset(pos(2, 1)), 3);
    assert_eq!(b.run_pos_to_flat_offset(pos(0, 9)), 2);
    assert_eq!(b.run_pos_to_flat_offset(pos(7, 0)), 6);
    for off in 0..10 {
        assert_eq!(b.run_pos_to_flat_offset(b.flat_offset_to_run_pos(off)), off.min(6));
    }
    let empty = block(&[]);
    assert_eq!(empty.flat_offset_to_run_pos(4), pos(0, 0));
    assert_eq!(empty.run_pos_to_flat_offset(pos(0, 0)), 0);
    let s = TextSelection { anchor: pos(2, 3), cursor: pos(0, 1) };
    assert_eq!(s.ordered_flat_offsets(&b), (1, 5));
}

#[test]
fn compositing_over() {
    let src = [0, 0, 0, 0, 200, 100, 50, 255, 255, 0, 0, 128];
    let mut dst = [1, 2, 3, 4, 9, 9, 9, 9, 0, 0, 255, 255, 77];
    composite_over(&src, &mut dst, 3);
    assert_eq!(&dst[0..4], &[1, 2, 3, 4]);
    assert_eq!(&dst[4..8], &[200, 100, 50, 255]);
    // 255*128 + 0*255*127/255 = 32640; out_a = 128 + 255*127/255 = 255; 32640 / 255 = 128.
    assert_eq!(&dst[8..12], &[128, 0, 127, 255]);
    assert_eq!(dst[12], 77);
}

#[test]
fn tight_bounds_and_trim() {
    // 3x2 buffer with two opaque pixels at (1, 0) and (2, 1).
    let mut data = vec![0u8; 24];
    data[4..8].copy_from_slice(&[1, 2, 3, 4]);
    data[20..24].copy_from_slice(&[5, 6, 7, 8]);
    let (x, y, w, h, crop) = find_tight_bounds_rgba(&data, 3, 2);
    assert_eq!((x, y, w, h), (1, 0, 2, 2));
    assert_eq!(crop, vec![1, 2, 3, 4, 0, 0, 0, 0, 0, 0, 0, 0, 5, 6, 7, 8]);
    assert_eq!(trim_to_content(&data, 3, 2), Some((1, 0, 2, 2, crop)));
    let clear = vec![0u8; 24];
    assert_eq!(find_tight_bounds_rgba(&clear, 3, 2), (0, 0, 0, 0, vec![]));
    assert_eq!(trim_to_content(&clear, 3, 2), None);
}

#[test]
fn blit_skips_transparent_and_clips() {
    let mut target = RgbaImage { width: 3, height: 1, data: vec![1; 12] };
    let buf = [9, 9, 9, 9, 0, 0, 0, 0, 7, 7, 7, 7];
    blit_rgba_buffer(&mut target, &buf, 3, 1, 1, 0, 3, 1);
    assert_eq!(target.data, vec![1, 1, 1, 1, 9, 9, 9, 9, 1, 1, 1, 1]);
    blit_rgba_buffer(&mut target, &buf, 3, 1, -2, 0, 3, 1);
    assert_eq!(target.data, vec![7, 7, 7, 7, 9, 9, 9, 9, 1, 1, 1, 1]);
}

#[test]
fn blit_composites_over_target() {
    // Half-transparent red over opaque blue: 200*128/255 = 100 red, 200*127/255 = 99 blue.
    let mut target = RgbaImage { width: 2, height: 1, data: vec![0, 0, 200, 255, 0, 0, 200, 255] };
    let buf = [200, 0, 0, 128, 10, 20, 30, 255];
    blit_rgba_buffer(&mut target, &buf, 2, 1, 0, 0, 2, 1);
    assert_eq!(target.data, vec![100, 0, 99, 255, 10, 20, 30, 255]);
}

#[test]
fn alignment_label_keys() {
    assert_eq!(TextAlignment::Left.label(), "text_alignment.left");
    assert_eq!(TextAlignment::Center.label(), "text_alignment.center");
    assert_eq!(TextAlignment::Right.label(), "text_alignment.right");
}

#[test]
fn dialog_selections() {
    assert_eq!(AddNoiseDialog { noise_type_idx: 0 }.noise_type(), NoiseType::Uniform);
    assert_eq!(AddNoiseDialog { noise_type_idx: 1 }.noise_type(), NoiseType::Gaussian);
    assert_eq!(AddNoiseDialog { noise_type_idx: 9 }.noise_type(), NoiseType::Perlin);
    assert_eq!(HalftoneDialog { shape_idx: 0 }.halftone_shape(), HalftoneShape::Circle);
    assert_eq!(HalftoneDialog { shape_idx: 3 }.halftone_shape(), HalftoneShape::Line);
    assert_eq!(HalftoneDialog { shape_idx: 4 }.halftone_shape(), HalftoneShape::Circle);
    assert_eq!(GridDialog { style_idx: 1 }.grid_style(), GridStyle::Checkerboard);
    assert_eq!(GridDialog { style_idx: 2 }.grid_style(), GridStyle::Lines);
    assert_eq!(OutlineDialog { mode_idx: 2 }.outline_mode(), OutlineMode::Center);
    assert_eq!(OutlineDialog { mode_idx: 7 }.outline_mode(), OutlineMode::Outside);
    assert_eq!(ColorFilterDialog { mode_idx: 3 }.filter_mode(), ColorFilterMode::SoftLight);
    assert_eq!(ColorFilterDialog { mode_idx: 0 }.filter_mode(), ColorFilterMode::Multiply);
    assert_eq!(zoom_quality_samples(0), 8);
    assert_eq!(zoom_quality_samples(1), 16);
    assert_eq!(zoom_quality_samples(200), 32);
}

#[test]
fn outline_distances() {
    // 3x1: transparent, opaque, transparent.
    let img = RgbaImage { width: 3, height: 1, data: vec![0, 0, 0, 0, 5, 5, 5, 255, 0, 0, 0, 0] };
    let probes = outline_probe(&img, 2, None);
    assert_eq!(probes.len(), 3);
    assert_eq!(probes[0].filled_sq, Some(1));
    assert_eq!(probes[0].empty_sq, Some(0));
    assert_eq!(probes[1].filled_sq, Some(0));
    assert_eq!(probes[1].empty_sq, Some(1));
    let far = RgbaImage { width: 4, height: 1, data: vec![0, 0, 0, 255, 0, 0, 0, 0, 0, 0, 0, 0, 0, 0, 0, 0] };
    let probes = outline_probe(&far, 1, None);
    assert_eq!(probes[3].filled_sq, None);
    assert_eq!(probes[2].filled_sq, None);
    assert_eq!(probes[1].filled_sq, Some(1));
    let mask = GrayImage { width: 4, height: 1, data: vec![255, 0, 255, 255] };
    let probes = outline_probe(&far, 1, Some(&mask));
    assert!(probes[1].skipped);
    assert!(!probes[0].skipped);
}

#[test]
fn warp_names_round_trip() {
    let all = TextWarpKind::all_names();
    assert_eq!(all, vec!["None", "Arc", "Circular", "Path Follow", "Envelope"]);
    for name in all {
        assert_eq!(TextWarpKind::from_name(name).name(), *name);
    }
    assert_eq!(TextWarpKind::from_name("Spiral"), TextWarpKind::NoWarp);
    assert_eq!(TextWarpKind::PathFollow.name(), "Path Follow");
}

#[test]
fn merging_runs() {
    let mut b = styled(&[("ab", 400), ("cd", 400), ("", 700), ("ef", 400), ("", 700), ("", 400)]);
    b.merge_adjacent_runs();
    assert_eq!(texts_and_weights(&b), vec![("abcdef".to_string(), 400)]);
    assert_eq!(b.flat_text(), "abcdef");
    let mut only_empty = styled(&[("", 400), ("", 700)]);
    only_empty.merge_adjacent_runs();
    assert_eq!(texts_and_weights(&only_empty), vec![("".to_string(), 700)]);
    assert!(style(400).eq_style(&style(400)));
    assert!(!style(400).eq_style(&style(700)));
}

#[test]
fn inserting_text() {
    let mut b = styled(&[("ab", 400), ("cd", 700)]);
    b.insert_text_at(3, "XY");
    assert_eq!(texts_and_weights(&b), vec![("ab".to_string(), 400), ("cXYd".to_string(), 700)]);
    b.insert_text_at(2, "-");
    assert_eq!(b.flat_text(), "ab-cXYd");
    b.insert_text_at(100, "!");
    assert_eq!(texts_and_weights(&b), vec![("ab-".to_string(), 400), ("cXYd!".to_string(), 700)]);
    let mut empty = styled(&[]);
    empty.insert_text_at(0, "z");
    assert!(empty.runs.is_empty());
}

#[test]
fn deleting_ranges() {
    let mut b = styled(&[("abc", 400), ("def", 700)]);
    b.delete_range(2, 5);
    assert_eq!(b.flat_text(), "abf");
    assert_eq!(texts_and_weights(&b), vec![("ab".to_string(), 400), ("f".to_string(), 700)]);
    let mut whole = styled(&[("abc", 400), ("def", 700)]);
    whole.delete_range(0, 3);
    assert_eq!(texts_and_weights(&whole), vec![("def".to_string(), 700)]);
    let mut same = styled(&[("abc", 400), ("def", 400)]);
    same.delete_range(1, 2);
    assert_eq!(texts_and_weights(&same), vec![("acdef".to_string(), 400)]);
    let mut untouched = styled(&[("abc", 400)]);
    untouched.delete_range(2, 2);
    untouched.delete_range(3, 1);
    assert_eq!(untouched.flat_text(), "abc");
}

#[test]
fn insert_then_delete_restores_text() {
    let mut b = styled(&[("h\u{e9}llo", 400), (" world", 700)]);
    b.insert_text_at(3, "XYZ");
    assert_eq!(b.flat_text(), "h\u{e9}XYZllo world");
    b.delete_range(3, 6);
    assert_eq!(b.flat_text(), "h\u{e9}llo world");
}

#[test]
fn splitting_runs() {
    let mut b = styled(&[("abc", 400), ("de", 700)]);
    b.split_at_flat_offset(1);
    assert_eq!(
        texts_and_weights(&b),
        vec![("a".to_string(), 400), ("bc".to_string(), 400), ("de".to_string(), 700)]
    );
    b.split_at_flat_offset(3);
    b.split_at_flat_offset(0);
    b.split_at_flat_offset(99);
    assert_eq!(b.runs.len(), 3);
    let mut u = styled(&[("\u{e9}t\u{e9}", 400)]);
    u.split_at_flat_offset(2);
    assert_eq!(texts_and_weights(&u), vec![("\u{e9}".to_string(), 400), ("t\u{e9}".to_string(), 400)]);
}

#[test]
fn styling_ranges() {
    let bold = |s: &TextStyle| {
        let mut t = s.duplicate();
        t.font_weight = 700;
        t
    };
    let mut b = styled(&[("hello", 400)]);
    b.apply_style_to_range(1, 3, bold);
    assert_eq!(
        texts_and_weights(&b),
        vec![("h".to_string(), 400), ("el".to_string(), 700), ("lo".to_string(), 400)]
    );
    assert_eq!(b.flat_text(), "hello");
    let mut whole = styled(&[("hello", 400)]);
    whole.apply_style_to_range(0, 5, bold);
    assert_eq!(texts_and_weights(&whole), vec![("hello".to_string(), 700)]);
    let mut two = styled(&[("ab", 400), ("cd", 700)]);
    two.apply_style_to_range(0, 2, bold);
    assert_eq!(texts_and_weights(&two), vec![("abcd".to_string(), 700)]);
    let mut none = styled(&[("ab", 400)]);
    none.apply_style_to_range(2, 1, bold);
    assert_eq!(texts_and_weights(&none), vec![("ab".to_string(), 400)]);
}

fn layer(blocks: Vec<TextBlock>, next_block_id: u64) -> TextLayerData {
    TextLayerData {
        blocks,
        cache_generation: 5,
        raster_generation: 5,
        next_block_id,
        text_content_generation: 2,
        position_generation: 9,
    }
}

#[test]
fn layer_generations() {
    let mut l = layer(vec![], 0);
    assert!(!l.needs_rasterize());
    l.mark_effects_dirty();
    assert!(l.needs_rasterize());
    assert_eq!((l.cache_generation, l.text_content_generation, l.position_generation), (6, 2, 9));
    l.raster_generation = 6;
    l.mark_position_dirty();
    assert!(l.needs_rasterize());
    assert_eq!((l.cache_generation, l.text_content_generation, l.position_generation), (7, 2, 10));
    l.raster_generation = 7;
    l.mark_dirty();
    assert!(l.needs_rasterize());
    assert_eq!((l.cache_generation, l.text_content_generation, l.position_generation), (8, 3, 11));
    l.cache_generation = u64::MAX;
    l.mark_effects_dirty();
    assert_eq!(l.cache_generation, 0);
}

#[test]
fn layer_blocks() {
    let mut l = layer(vec![styled(&[("ab", 700)]), styled(&[("", 400), ("", 400)])], 2);
    l.blocks[1].id = 1;
    assert_eq!(l.flat_text(), "ab");
    assert_eq!(l.primary_style().map(|s| s.font_weight), Some(700));
    let id = l.add_block(1.5f32.to_bits(), 2.0f32.to_bits(), &style(400));
    assert_eq!(id, 2);
    assert_eq!(l.next_block_id, 3);
    assert_eq!(l.blocks.len(), 3);
    assert_eq!(l.blocks[2].position_bits, [1.5f32.to_bits(), 2.0f32.to_bits()]);
    assert_eq!(texts_and_weights(&l.blocks[2]), vec![("".to_string(), 700)]);
    assert!(l.needs_rasterize());
    assert_eq!(l.block_index_by_id(2), Some(2));
    assert_eq!(l.block_index_by_id(1), Some(1));
    assert_eq!(l.block_index_by_id(7), None);
    let generation = l.cache_generation;
    assert_eq!(l.remove_empty_blocks(), 2);
    assert_eq!(l.blocks.len(), 1);
    assert_eq!(l.cache_generation, generation.wrapping_add(1));
    assert_eq!(l.remove_empty_blocks(), 0);
    assert_eq!(l.cache_generation, generation.wrapping_add(1));
    let mut empty = layer(vec![], 0);
    assert!(empty.primary_style().is_none());
    empty.add_block(0, 0, &style(300));
    assert_eq!(texts_and_weights(&empty.blocks[0]), vec![("".to_string(), 300)]);
}

#[test]
fn comparing_positions() {
    let b = block(&["ab", "", "cd"]);
    assert_eq!(pos(0, 1).cmp_in(&pos(2, 0), &b), std::cmp::Ordering::Less);
    assert_eq!(pos(0, 2).cmp_in(&pos(2, 0), &b), std::cmp::Ordering::Equal);
    assert_eq!(pos(2, 2).cmp_in(&pos(1, 0), &b), std::cmp::Ordering::Greater);
    assert_eq!(pos(0, 9).cmp_in(&pos(0, 2), &b), std::cmp::Ordering::Equal);
}

#[test]
fn glyph_overrides() {
    let mut b = styled(&[("abc", 400)]);
    assert!(!b.has_glyph_overrides());
    assert!(b.get_glyph_override(1).is_none());
    {
        let o = b.ensure_glyph_override(1);
        assert_eq!(o.glyph_index, 1);
        assert_eq!(o.scale_bits, 1.0f32.to_bits());
        assert_eq!(o.position_offset_bits, [0, 0]);
        o.rotation_bits = 0.5f32.to_bits();
    }
    assert!(b.has_glyph_overrides());
    b.ensure_glyph_override(2);
    assert_eq!(b.glyph_overrides.len(), 2);
    b.ensure_glyph_override(1).scale_bits = 2.0f32.to_bits();
    assert_eq!(b.glyph_overrides.len(), 2);
    let o = b.get_glyph_override(1).unwrap();
    assert_eq!((o.rotation_bits, o.scale_bits), (0.5f32.to_bits(), 2.0f32.to_bits()));
    assert_eq!(GlyphOverride::identity(7).glyph_index, 7);
    b.clear_glyph_overrides();
    assert!(!b.has_glyph_overrides());
}

#[test]
fn merging_separates_styles() {
    let mut b = styled(&[("a", 400), ("b", 400), ("c", 700), ("d", 400), ("e", 400)]);
    b.merge_adjacent_runs();
    assert_eq!(
        texts_and_weights(&b),
        vec![("ab".to_string(), 400), ("c".to_string(), 700), ("de".to_string(), 400)]
    );
    // An empty run between two runs of one style is dropped and its neighbours are joined.
    let mut gap = styled(&[("x", 400), ("", 700), ("y", 400)]);
    gap.merge_adjacent_runs();
    assert_eq!(texts_and_weights(&gap), vec![("xy".to_string(), 400)]);
    let mut gaps = styled(&[("x", 400), ("", 700), ("", 300), ("y", 400), ("z", 700)]);
    gaps.merge_adjacent_runs();
    assert_eq!(texts_and_weights(&gaps), vec![("xy".to_string(), 400), ("z".to_string(), 700)]);
}

#[test]
fn defaults() {
    assert_eq!(TextWarpKind::default(), TextWarpKind::NoWarp);
    let o = GlyphOverride::default();
    assert_eq!((o.glyph_index, o.position_offset_bits, o.rotation_bits, o.scale_bits), (0, [0, 0], 0, 1.0f32.to_bits()));
}

use paintfe::canvas::{
    add_layer, add_text_layer, commit_to_layer, delete_layer, duplicate_layer, merge_down_as_mask,
    CanvasState, HistoryManager, Layer, LayerContent, LayerOperation,
};
use paintfe::clipboard::selection_clip;
use paintfe::raster::{GrayImage, RgbaImage};

fn solid(w: u32, h: u32, p: [u8; 4]) -> RgbaImage {
    let mut data = Vec::new();
    for _ in 0..(w * h) {
        data.extend_from_slice(&p);
    }
    RgbaImage { width: w, height: h, data }
}

fn layer(name: &str, p: [u8; 4]) -> Layer {
    Layer { name: name.to_string(), pixels: solid(2, 2, p), visible: true, opacity: 255, content: LayerContent::Raster }
}

fn state(n: usize) -> CanvasState {
    let layers = (0..n).map(|i| layer(&format!("L{}", i), [i as u8, 0, 0, 255])).collect();
    CanvasState { width: 2, height: 2, layers, active_layer_index: 0, selection_mask: None, dirty: false }
}

fn names(s: &CanvasState) -> Vec<String> {
    s.layers.iter().map(|l| l.name.clone()).collect()
}

#[test]
fn add_layer_names_and_places_it() {
    let mut s = state(2);
    let mut h = HistoryManager::new();
    add_layer(&mut s, &mut h);
    assert_eq!(names(&s), vec!["L0", "Layer 3", "L1"]);
    assert_eq!(s.active_layer_index, 1);
    assert_eq!(s.layers[1].pixels.data, vec![0; 16]);
    assert!(s.dirty);
    assert!(matches!(&h.entries[0], LayerOperation::Add { index: 1, name, width: 2, height: 2 } if name == "Layer 3"));
    add_text_layer(&mut s, &mut h);
    assert_eq!(names(&s), vec!["L0", "Layer 3", "Text Layer 4", "L1"]);
    assert!(matches!(s.layers[2].content, LayerContent::Text));
    assert_eq!(h.entries.len(), 2);
}

#[test]
fn deleting_an_added_layer_restores_the_stack() {
    let mut s = state(3);
    s.active_layer_index = 1;
    let mut h = HistoryManager::new();
    let before = names(&s);
    add_layer(&mut s, &mut h);
    delete_layer(&mut s, &mut h);
    assert_eq!(names(&s), before);
    assert_eq!(h.entries.len(), 2);
}

#[test]
fn deleting_a_duplicate_restores_the_stack() {
    let mut s = state(2);
    let mut h = HistoryManager::new();
    duplicate_layer(&mut s, &mut h);
    assert_eq!(names(&s), vec!["L0", "L0 Copy", "L1"]);
    assert_eq!(s.layers[1].pixels.data, s.layers[0].pixels.data);
    assert_eq!(s.active_layer_index, 1);
    delete_layer(&mut s, &mut h);
    assert_eq!(names(&s), vec!["L0", "L1"]);
}

#[test]
fn last_layer_is_never_deleted() {
    let mut s = state(1);
    let mut h = HistoryManager::new();
    delete_layer(&mut s, &mut h);
    assert_eq!(s.layers.len(), 1);
    assert!(h.entries.is_empty());
    assert!(!s.dirty);
}

#[test]
fn deleting_the_top_layer_moves_the_active_index_down() {
    let mut s = state(3);
    s.active_layer_index = 2;
    let mut h = HistoryManager::new();
    delete_layer(&mut s, &mut h);
    assert_eq!(s.active_layer_index, 1);
    assert!(matches!(&h.entries[0], LayerOperation::Delete { index: 2, name, .. } if name == "L2"));
}

#[test]
fn merge_down_as_mask_scales_alpha() {
    let mut s = state(3);
    s.active_layer_index = 2;
    s.layers[0] = layer("bottom", [10, 20, 30, 200]);
    merge_down_as_mask(&mut s, 1, &vec![255, 128, 0, 51]);
    assert_eq!(names(&s), vec!["bottom", "L2"]);
    assert_eq!(s.active_layer_index, 1);
    let d = &s.layers[0].pixels.data;
    assert_eq!(&d[0..4], &[10, 20, 30, 200]);
    assert_eq!(&d[4..8], &[10, 20, 30, 100]);
    assert_eq!(&d[8..12], &[10, 20, 30, 0]);
    assert_eq!(&d[12..16], &[10, 20, 30, 40]);
}

#[test]
fn merge_down_of_bottom_layer_does_nothing() {
    let mut s = state(2);
    merge_down_as_mask(&mut s, 0, &vec![]);
    merge_down_as_mask(&mut s, 5, &vec![]);
    assert_eq!(names(&s), vec!["L0", "L1"]);
    assert!(!s.dirty);
}

#[test]
fn commit_replaces_pixels() {
    let mut s = state(2);
    commit_to_layer(&mut s, 1, solid(2, 2, [9, 9, 9, 9]));
    assert_eq!(s.layers[1].pixels.data, vec![9; 16]);
    assert!(s.dirty);
    let mut t = state(1);
    commit_to_layer(&mut t, 3, solid(2, 2, [9, 9, 9, 9]));
    assert!(!t.dirty);
    let _ = GrayImage { width: 0, height: 0, data: vec![] };
}

#[test]
fn selection_clip_cuts_selected_pixels() {
    let mut s = state(1);
    s.layers[0].pixels = RgbaImage {
        width: 2,
        height: 2,
        data: vec![1, 1, 1, 1, 2, 2, 2, 2, 3, 3, 3, 3, 4, 4, 4, 4],
    };
    assert!(selection_clip(&s).is_none());
    s.selection_mask = Some(GrayImage { width: 2, height: 2, data: vec![0, 9, 9, 0] });
    let (x, y, clip) = selection_clip(&s).unwrap();
    assert_eq!((x, y, clip.width, clip.height), (0, 0, 2, 2));
    assert_eq!(clip.data, vec![0, 0, 0, 0, 2, 2, 2, 2, 3, 3, 3, 3, 0, 0, 0, 0]);
    s.selection_mask = Some(GrayImage { width: 2, height: 2, data: vec![0, 0, 0, 7] });
    let (x, y, clip) = selection_clip(&s).unwrap();
    assert_eq!((x, y), (1, 1));
    assert_eq!(clip.data, vec![4, 4, 4, 4]);
    s.selection_mask = Some(GrayImage { width: 2, height: 2, data: vec![0; 4] });
    assert!(selection_clip(&s).is_none());
}

#[test]
fn layer_names_count_in_decimal() {
    let mut s = state(109);
    let mut h = HistoryManager::new();
    add_layer(&mut s, &mut h);
    assert_eq!(s.layers[1].name, "Layer 110");
    let mut t = state(9);
    add_text_layer(&mut t, &mut h);
    assert_eq!(t.layers[1].name, "Text Layer 10");
}

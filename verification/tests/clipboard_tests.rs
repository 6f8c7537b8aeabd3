use paintfe::clipboard::{
    clipboard_image_from_bytes, clipboard_png_bytes, images_match, preferred_image_type, recent_internal_paste,
    resolve_paste, ClipboardImageSource, ClipboardPayload,
};
use paintfe::raster::RgbaImage;

fn img(w: u32, h: u32, v: u8) -> RgbaImage {
    RgbaImage { width: w, height: h, data: vec![v; (w * h * 4) as usize] }
}

fn payload(v: u8, source: ClipboardImageSource) -> ClipboardPayload {
    ClipboardPayload { image: img(2, 1, v), source, origin_center_bits: Some([1.0f32.to_bits(), 0.5f32.to_bits()]) }
}

#[test]
fn matching_images() {
    assert!(images_match(&img(2, 1, 3), &img(2, 1, 3)));
    assert!(!images_match(&img(2, 1, 3), &img(1, 2, 3)));
    assert!(!images_match(&img(2, 1, 3), &img(2, 1, 4)));
}

#[test]
fn fresh_internal_copy_wins() {
    let internal = Some(payload(7, ClipboardImageSource::Internal));
    let p = recent_internal_paste(&internal, true).expect("a fresh in-app copy is pasted");
    assert_eq!(p.image.data, vec![7; 8]);
    assert_eq!(p.source, ClipboardImageSource::Internal);
    assert_eq!(p.origin_center_bits, Some([1.0f32.to_bits(), 0.5f32.to_bits()]));
    assert!(recent_internal_paste(&internal, false).is_none());
    assert!(recent_internal_paste(&Some(payload(7, ClipboardImageSource::External)), true).is_none());
    assert!(recent_internal_paste(&None, true).is_none());
}

#[test]
fn system_clipboard_resolution() {
    let same = resolve_paste(Some(payload(7, ClipboardImageSource::Internal)), Some(img(2, 1, 7))).unwrap();
    assert_eq!(same.source, ClipboardImageSource::Internal);
    assert!(same.origin_center_bits.is_some());
    let other = resolve_paste(Some(payload(7, ClipboardImageSource::Internal)), Some(img(2, 1, 9))).unwrap();
    assert_eq!(other.source, ClipboardImageSource::External);
    assert_eq!(other.image.data, vec![9; 8]);
    assert_eq!(other.origin_center_bits, None);
    let only_system = resolve_paste(None, Some(img(1, 1, 2))).unwrap();
    assert_eq!(only_system.source, ClipboardImageSource::External);
    let only_internal = resolve_paste(Some(payload(5, ClipboardImageSource::Internal)), None).unwrap();
    assert_eq!(only_internal.image.data, vec![5; 8]);
    assert!(resolve_paste(None, None).is_none());
}

#[test]
fn wayland_type_choice() {
    assert_eq!(preferred_image_type("text/plain\nimage/jpeg\nimage/png\n"), Some("image/png"));
    assert_eq!(preferred_image_type("  image/bmp \r\nimage/tiff"), Some("image/bmp"));
    assert_eq!(preferred_image_type("image/webp\r\nimage/jpeg"), Some("image/webp"));
    assert_eq!(preferred_image_type("image/pngx\ntext/html"), None);
    assert_eq!(preferred_image_type(""), None);
}

#[test]
fn empty_clipboard_bytes_give_no_image() {
    assert!(clipboard_image_from_bytes(&[]).is_none());
}

#[test]
fn undecodable_clipboard_bytes_give_no_image() {
    assert!(clipboard_image_from_bytes(b"plain text, not an image").is_none());
}

#[test]
fn png_copy_decodes_back_to_the_same_pixels() {
    let src = RgbaImage { width: 2, height: 1, data: vec![255, 0, 0, 255, 0, 0, 255, 128] };
    let bytes = clipboard_png_bytes(&src).expect("a PNG encoding");
    assert_eq!(&bytes[..8], &[137u8, 80, 78, 71, 13, 10, 26, 10]);
    assert_ne!(bytes, src.data);
    let back = clipboard_image_from_bytes(&bytes).expect("the PNG decodes");
    assert_eq!((back.width, back.height), (2, 1));
    assert_eq!(back.data, src.data);
}

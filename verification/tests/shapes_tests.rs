use paintfe::shapes::{ShapeFillMode, ShapeKind};
use paintfe::transform::Interpolation;

#[test]
fn shape_kind_lists() {
    let all = ShapeKind::all();
    assert_eq!(all.len(), 17);
    assert_eq!(all[0], ShapeKind::Ellipse);
    assert_eq!(all[16], ShapeKind::Arrow);
    let picker = ShapeKind::picker_shapes();
    assert_eq!(picker.len(), 13);
    assert_eq!(&all[..13], picker);
    assert!(!picker.contains(&ShapeKind::Diamond));
    assert!(!picker.contains(&ShapeKind::Star5));
    assert!(picker.contains(&ShapeKind::Heart));
}

#[test]
fn shape_icons_and_labels() {
    assert_eq!(ShapeKind::RoundedRect.icon_name(), "rounded_rect");
    assert_eq!(ShapeKind::RightTriangle.icon_name(), "right_triangle");
    assert_eq!(ShapeKind::Star6.icon_name(), "rectangle");
    assert_eq!(ShapeKind::Arrow.icon_name(), "rectangle");
    assert_eq!(ShapeKind::Heart.label(), "shape.heart");
    assert_eq!(ShapeKind::Star5.label(), "shape.star5");
    let mut icons: Vec<&str> = ShapeKind::picker_shapes().iter().map(|k| k.icon_name()).collect();
    icons.sort();
    icons.dedup();
    assert_eq!(icons.len(), 13);
}

#[test]
fn fill_modes_and_interpolations() {
    assert_eq!(ShapeFillMode::all(), &[ShapeFillMode::Outline, ShapeFillMode::Filled, ShapeFillMode::Both]);
    assert_eq!(ShapeFillMode::Both.label(), "shape_fill.both");
    assert_eq!(Interpolation::all().len(), 4);
    assert_eq!(Interpolation::all()[3], Interpolation::Lanczos3);
    assert_eq!(Interpolation::Bicubic.label(), "interpolation.bicubic");
    assert_eq!(Interpolation::Nearest.label(), "interpolation.nearest");
}

#[test]
fn default_interpolation_is_bilinear() {
    assert_eq!(Interpolation::default(), Interpolation::Bilinear);
}

//! The shape primitives, how a shape is painted and the handles of a placed shape.
use vstd::prelude::*;

verus! {

/// Available shape primitives.
#[derive(Clone, Copy, Debug, PartialEq, Eq, Structural, Hash)]
pub enum ShapeKind {
    Ellipse,
    Rectangle,
    RoundedRect,
    Trapezoid,
    Parallelogram,
    Triangle,
    RightTriangle,
    Pentagon,
    Hexagon,
    Octagon,
    Cross,
    Check,
    Heart,
    // Legacy variants, kept so that older documents still load; the picker hides them.
    Diamond,
    Star5,
    Star6,
    Arrow,
}

/// The kinds that are kept for compatibility only.
pub open spec fn is_legacy(k: ShapeKind) -> bool {
    k is Diamond || k is Star5 || k is Star6 || k is Arrow
}

/// The kinds shown in the picker, in picker order.
pub open spec fn picker_kinds() -> Seq<ShapeKind> {
    seq![
        ShapeKind::Ellipse,
        ShapeKind::Rectangle,
        ShapeKind::RoundedRect,
        ShapeKind::Trapezoid,
        ShapeKind::Parallelogram,
        ShapeKind::Triangle,
        ShapeKind::RightTriangle,
        ShapeKind::Pentagon,
        ShapeKind::Hexagon,
        ShapeKind::Octagon,
        ShapeKind::Cross,
        ShapeKind::Check,
        ShapeKind::Heart,
    ]
}

/// Every kind: the picker's, then the legacy ones.
pub open spec fn all_kinds() -> Seq<ShapeKind> {
    picker_kinds() + seq![ShapeKind::Diamond, ShapeKind::Star5, ShapeKind::Star6, ShapeKind::Arrow]
}

/// The key under which the translated name of a shape kind is looked up.
pub open spec fn kind_label_key(k: ShapeKind) -> Seq<char> {
    match k {
        ShapeKind::Ellipse => "shape.ellipse"@,
        ShapeKind::Rectangle => "shape.rectangle"@,
        ShapeKind::RoundedRect => "shape.rounded_rect"@,
        ShapeKind::Trapezoid => "shape.trapezoid"@,
        ShapeKind::Parallelogram => "shape.parallelogram"@,
        ShapeKind::Triangle => "shape.triangle"@,
        ShapeKind::RightTriangle => "shape.right_triangle"@,
        ShapeKind::Pentagon => "shape.pentagon"@,
        ShapeKind::Hexagon => "shape.hexagon"@,
        ShapeKind::Octagon => "shape.octagon"@,
        ShapeKind::Cross => "shape.cross"@,
        ShapeKind::Check => "shape.check"@,
        ShapeKind::Heart => "shape.heart"@,
        ShapeKind::Diamond => "shape.diamond"@,
        ShapeKind::Star5 => "shape.star5"@,
        ShapeKind::Star6 => "shape.star6"@,
        ShapeKind::Arrow => "shape.arrow"@,
    }
}

/// The icon file stem of a shape kind; legacy kinds use the rectangle's icon.
pub open spec fn icon_stem(k: ShapeKind) -> Seq<char> {
    match k {
        ShapeKind::Ellipse => "ellipse"@,
        ShapeKind::Rectangle => "rectangle"@,
        ShapeKind::RoundedRect => "rounded_rect"@,
        ShapeKind::Trapezoid => "trapezoid"@,
        ShapeKind::Parallelogram => "parallelogram"@,
        ShapeKind::Triangle => "triangle"@,
        ShapeKind::RightTriangle => "right_triangle"@,
        ShapeKind::Pentagon => "pentagon"@,
        ShapeKind::Hexagon => "hexagon"@,
        ShapeKind::Octagon => "octagon"@,
        ShapeKind::Cross => "cross"@,
        ShapeKind::Check => "check"@,
        ShapeKind::Heart => "heart"@,
        _ => "rectangle"@,
    }
}

impl ShapeKind {
    /// The key under which the translated name of this kind is looked up.
    pub fn label(&self) -> (s: String)
        ensures
            s@ == kind_label_key(*self),
    {
        let key = match self {
            ShapeKind::Ellipse => "shape.ellipse",
            ShapeKind::Rectangle => "shape.rectangle",
            ShapeKind::RoundedRect => "shape.rounded_rect",
            ShapeKind::Trapezoid => "shape.trapezoid",
            ShapeKind::Parallelogram => "shape.parallelogram",
            ShapeKind::Triangle => "shape.triangle",
            ShapeKind::RightTriangle => "shape.right_triangle",
            ShapeKind::Pentagon => "shape.pentagon",
            ShapeKind::Hexagon => "shape.hexagon",
            ShapeKind::Octagon => "shape.octagon",
            ShapeKind::Cross => "shape.cross",
            ShapeKind::Check => "shape.check",
            ShapeKind::Heart => "shape.heart",
            ShapeKind::Diamond => "shape.diamond",
            ShapeKind::Star5 => "shape.star5",
            ShapeKind::Star6 => "shape.star6",
            ShapeKind::Arrow => "shape.arrow",
        };
        String::from_str(key)
    }

    /// The icon file stem for this kind (the PNG file name without extension).
    pub fn icon_name(&self) -> (s: &'static str)
        ensures
            s@ == icon_stem(*self),
    {
        match self {
            ShapeKind::Ellipse => "ellipse",
            ShapeKind::Rectangle => "rectangle",
            ShapeKind::RoundedRect => "rounded_rect",
            ShapeKind::Trapezoid => "trapezoid",
            ShapeKind::Parallelogram => "parallelogram",
            ShapeKind::Triangle => "triangle",
            ShapeKind::RightTriangle => "right_triangle",
            ShapeKind::Pentagon => "pentagon",
            ShapeKind::Hexagon => "hexagon",
            ShapeKind::Octagon => "octagon",
            ShapeKind::Cross => "cross",
            ShapeKind::Check => "check",
            ShapeKind::Heart => "heart",
            _ => "rectangle",
        }
    }

    /// The kinds shown in the picker grid: every kind but the legacy ones.
    pub fn picker_shapes() -> (r: &'static [ShapeKind])
        ensures
            r@ == picker_kinds(),
    {
        let r: &'static [ShapeKind] = &[
            ShapeKind::Ellipse,
            ShapeKind::Rectangle,
            ShapeKind::RoundedRect,
            ShapeKind::Trapezoid,
            ShapeKind::Parallelogram,
            ShapeKind::Triangle,
            ShapeKind::RightTriangle,
            ShapeKind::Pentagon,
            ShapeKind::Hexagon,
            ShapeKind::Octagon,
            ShapeKind::Cross,
            ShapeKind::Check,
            ShapeKind::Heart,
        ];
        proof {
            assert(r@ =~= picker_kinds());
        }
        r
    }

    /// Every kind, the legacy ones included.
    pub fn all() -> (r: &'static [ShapeKind])
        ensures
            r@ == all_kinds(),
    {
        let r: &'static [ShapeKind] = &[
            ShapeKind::Ellipse,
            ShapeKind::Rectangle,
            ShapeKind::RoundedRect,
            ShapeKind::Trapezoid,
            ShapeKind::Parallelogram,
            ShapeKind::Triangle,
            ShapeKind::RightTriangle,
            ShapeKind::Pentagon,
            ShapeKind::Hexagon,
            ShapeKind::Octagon,
            ShapeKind::Cross,
            ShapeKind::Check,
            ShapeKind::Heart,
            ShapeKind::Diamond,
            ShapeKind::Star5,
            ShapeKind::Star6,
            ShapeKind::Arrow,
        ];
        proof {
            assert(r@ =~= all_kinds());
        }
        r
    }
}

/// Every kind is listed by `all`, and the picker lists exactly the kinds that are not legacy.
pub proof fn lemma_kind_lists_complete(k: ShapeKind)
    ensures
        all_kinds().contains(k),
        picker_kinds().contains(k) <==> !is_legacy(k),
{
    let p = picker_kinds();
    let a = all_kinds();
    let i: int = match k {
        ShapeKind::Ellipse => 0,
        ShapeKind::Rectangle => 1,
        ShapeKind::RoundedRect => 2,
        ShapeKind::Trapezoid => 3,
        ShapeKind::Parallelogram => 4,
        ShapeKind::Triangle => 5,
        ShapeKind::RightTriangle => 6,
        ShapeKind::Pentagon => 7,
        ShapeKind::Hexagon => 8,
        ShapeKind::Octagon => 9,
        ShapeKind::Cross => 10,
        ShapeKind::Check => 11,
        ShapeKind::Heart => 12,
        ShapeKind::Diamond => 13,
        ShapeKind::Star5 => 14,
        ShapeKind::Star6 => 15,
        ShapeKind::Arrow => 16,
    };
    assert(a[i] == k);
    if i < 13 {
        assert(p[i] == k);
    } else {
        assert forall|j: int| 0 <= j < p.len() implies p[j] != k by {}
    }
}

/// How a shape is painted.
#[derive(Clone, Copy, Debug, PartialEq, Eq, Structural)]
pub enum ShapeFillMode {
    Outline,
    Filled,
    Both,
}

impl ShapeFillMode {
    /// The key under which the translated name of this mode is looked up.
    pub fn label(&self) -> (s: String)
        ensures
            s@ == (match *self {
                ShapeFillMode::Outline => "shape_fill.outline"@,
                ShapeFillMode::Filled => "shape_fill.filled"@,
                ShapeFillMode::Both => "shape_fill.both"@,
            }),
    {
        match self {
            ShapeFillMode::Outline => String::from_str("shape_fill.outline"),
            ShapeFillMode::Filled => String::from_str("shape_fill.filled"),
            ShapeFillMode::Both => String::from_str("shape_fill.both"),
        }
    }

    /// Every fill mode, in menu order.
    pub fn all() -> (r: &'static [ShapeFillMode])
        ensures
            r@ == seq![ShapeFillMode::Outline, ShapeFillMode::Filled, ShapeFillMode::Both],
    {
        &[ShapeFillMode::Outline, ShapeFillMode::Filled, ShapeFillMode::Both]
    }
}

/// A handle for moving, resizing or rotating a placed shape.
#[derive(Clone, Copy, Debug, PartialEq, Eq, Structural)]
pub enum ShapeHandle {
    Move,
    TopLeft,
    TopRight,
    BottomLeft,
    BottomRight,
    Top,
    Right,
    Bottom,
    Left,
    Rotate,
}

} // verus!

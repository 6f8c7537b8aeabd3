//! Parameter choices of the effect dialogs: the enums the effects take and the mapping from
//! a dialog's selected list index to them.
use vstd::prelude::*;

verus! {

/// Kind of noise added by the noise effect.
#[derive(Clone, Copy, Debug, PartialEq, Eq, Structural)]
pub enum NoiseType {
    Uniform,
    Gaussian,
    Perlin,
}

/// Dot shape of the halftone effect.
#[derive(Clone, Copy, Debug, PartialEq, Eq, Structural)]
pub enum HalftoneShape {
    Circle,
    Square,
    Diamond,
    Line,
}

/// Pattern drawn by the grid effect.
#[derive(Clone, Copy, Debug, PartialEq, Eq, Structural)]
pub enum GridStyle {
    Lines,
    Checkerboard,
}

/// Where the outline effect draws relative to the opaque shape.
#[derive(Clone, Copy, Debug, PartialEq, Eq, Structural)]
pub enum OutlineMode {
    Outside,
    Inside,
    Center,
}

/// Blend mode of the colour-filter effect.
#[derive(Clone, Copy, Debug, PartialEq, Eq, Structural)]
pub enum ColorFilterMode {
    Multiply,
    Screen,
    Overlay,
    SoftLight,
}

/// Samples taken by the zoom blur for quality setting `q`: 8 (fast), 16 (normal), 32 (high
/// and anything above).
pub fn zoom_quality_samples(q: u8) -> (n: u32)
    ensures
        n == (if q == 0 { 8u32 } else if q == 1 { 16u32 } else { 32u32 }),
{
    match q {
        0 => 8,
        1 => 16,
        _ => 32,
    }
}

/// Selection state of the noise dialog.
pub struct AddNoiseDialog {
    /// Selected entry of the noise-type list.
    pub noise_type_idx: usize,
}

impl AddNoiseDialog {
    /// The selected noise type: 0 uniform, 1 Gaussian, anything else Perlin.
    pub fn noise_type(&self) -> (t: NoiseType)
        ensures
            t == (if self.noise_type_idx == 0 {
                NoiseType::Uniform
            } else if self.noise_type_idx == 1 {
                NoiseType::Gaussian
            } else {
                NoiseType::Perlin
            }),
    {
        match self.noise_type_idx {
            0 => NoiseType::Uniform,
            1 => NoiseType::Gaussian,
            _ => NoiseType::Perlin,
        }
    }
}

/// Selection state of the halftone dialog.
pub struct HalftoneDialog {
    /// Selected entry of the dot-shape list.
    pub shape_idx: usize,
}

impl HalftoneDialog {
    /// The selected dot shape: 1 square, 2 diamond, 3 line, anything else circle.
    pub fn halftone_shape(&self) -> (s: HalftoneShape)
        ensures
            s == (if self.shape_idx == 1 {
                HalftoneShape::Square
            } else if self.shape_idx == 2 {
                HalftoneShape::Diamond
            } else if self.shape_idx == 3 {
                HalftoneShape::Line
            } else {
                HalftoneShape::Circle
            }),
    {
        match self.shape_idx {
            1 => HalftoneShape::Square,
            2 => HalftoneShape::Diamond,
            3 => HalftoneShape::Line,
            _ => HalftoneShape::Circle,
        }
    }
}

/// Selection state of the grid dialog.
pub struct GridDialog {
    /// Selected entry of the style list.
    pub style_idx: usize,
}

impl GridDialog {
    /// The selected grid style: 1 checkerboard, anything else lines.
    pub fn grid_style(&self) -> (s: GridStyle)
        ensures
            s == (if self.style_idx == 1 { GridStyle::Checkerboard } else { GridStyle::Lines }),
    {
        match self.style_idx {
            1 => GridStyle::Checkerboard,
            _ => GridStyle::Lines,
        }
    }
}

/// Selection state of the outline dialog.
pub struct OutlineDialog {
    /// Selected entry of the mode list.
    pub mode_idx: usize,
}

impl OutlineDialog {
    /// The selected outline mode: 1 inside, 2 centre, anything else outside.
    pub fn outline_mode(&self) -> (m: OutlineMode)
        ensures
            m == (if self.mode_idx == 1 {
                OutlineMode::Inside
            } else if self.mode_idx == 2 {
                OutlineMode::Center
            } else {
                OutlineMode::Outside
            }),
    {
        match self.mode_idx {
            1 => OutlineMode::Inside,
            2 => OutlineMode::Center,
            _ => OutlineMode::Outside,
        }
    }
}

/// Selection state of the colour-filter dialog.
pub struct ColorFilterDialog {
    /// Selected entry of the blend-mode list.
    pub mode_idx: usize,
}

impl ColorFilterDialog {
    /// The selected blend mode: 1 screen, 2 overlay, 3 soft light, anything else multiply.
    pub fn filter_mode(&self) -> (m: ColorFilterMode)
        ensures
            m == (if self.mode_idx == 1 {
                ColorFilterMode::Screen
            } else if self.mode_idx == 2 {
                ColorFilterMode::Overlay
            } else if self.mode_idx == 3 {
                ColorFilterMode::SoftLight
            } else {
                ColorFilterMode::Multiply
            }),
    {
        match self.mode_idx {
            1 => ColorFilterMode::Screen,
            2 => ColorFilterMode::Overlay,
            3 => ColorFilterMode::SoftLight,
            _ => ColorFilterMode::Multiply,
        }
    }
}

} // verus!

//! Options of the plain text tool.
use vstd::prelude::*;

verus! {

/// Horizontal alignment of text lines.
#[derive(Clone, Copy, Debug, PartialEq, Eq, Structural)]
pub enum TextAlignment {
    Left,
    Center,
    Right,
}

impl TextAlignment {
    /// The key under which the translated name of this alignment is looked up.
    pub fn label(&self) -> (s: String)
        ensures
            s@ == (match *self {
                TextAlignment::Left => "text_alignment.left"@,
                TextAlignment::Center => "text_alignment.center"@,
                TextAlignment::Right => "text_alignment.right"@,
            }),
    {
        match self {
            TextAlignment::Left => String::from_str("text_alignment.left"),
            TextAlignment::Center => String::from_str("text_alignment.center"),
            TextAlignment::Right => String::from_str("text_alignment.right"),
        }
    }
}

} // verus!

use vstd::prelude::*;

verus! {

/// One RGBA texel, eight bits per channel.
#[derive(Clone, Copy, Debug, PartialEq, Eq, Structural)]
pub struct Color {
    pub r: u8,
    pub g: u8,
    pub b: u8,
    pub a: u8,
}

/// What the compositor found at one atlas position.
///
/// Every outcome but `Sampled` is a diagnostic and is painted in a reserved
/// colour, so that a packing defect shows up in the finished bitmap.
#[derive(Clone, Copy, Debug, PartialEq, Eq, Structural)]
pub enum Resolved {
    /// The scanline had already run past the last slot of its row.
    Unassigned,
    /// The scanline ran past the last slot of its row at this very position.
    SlotExhausted,
    /// The slot refers to an image that the packing order does not hold.
    IndexMiss,
    /// The position lies in the row, above or below the image of its slot.
    VerticalBounds,
    /// The texel of a placed image.
    Sampled(Color),
}

impl Color {
    /// A colour from its four channels.
    pub open spec fn rgba(r: u8, g: u8, b: u8, a: u8) -> Color {
        Color { r, g, b, a }
    }

    /// What a fresh bitmap holds everywhere: all channels zero.
    pub open spec fn blank() -> Color {
        Color::rgba(0, 0, 0, 0)
    }

    /// The colour of the debug markers.
    pub open spec fn marker() -> Color {
        Color::rgba(255, 255, 0, 255)
    }
}

impl Resolved {
    /// The colour that stands for this outcome in the bitmap.
    pub open spec fn paint(self) -> Color {
        match self {
            Resolved::Unassigned => Color::rgba(0, 0, 0, 255),
            Resolved::SlotExhausted => Color::rgba(255, 0, 255, 255),
            Resolved::IndexMiss => Color::rgba(255, 255, 0, 255),
            Resolved::VerticalBounds => Color::rgba(255, 0, 0, 255),
            Resolved::Sampled(texel) => texel,
        }
    }

    /// The colour to write for this outcome.
    pub fn color(self) -> (c: Color)
        ensures
            c == self.paint(),
    {
        match self {
            Resolved::Unassigned => Color { r: 0, g: 0, b: 0, a: 255 },
            Resolved::SlotExhausted => Color { r: 255, g: 0, b: 255, a: 255 },
            Resolved::IndexMiss => Color { r: 255, g: 255, b: 0, a: 255 },
            Resolved::VerticalBounds => Color { r: 255, g: 0, b: 0, a: 255 },
            Resolved::Sampled(texel) => texel,
        }
    }
}

} // verus!

use vstd::prelude::*;

verus! {

/// The twenty colours that a Piet program is painted with.
#[derive(Debug, Clone, Copy, PartialEq, Eq, Structural)]
pub enum PietColour {
    White,
    Black,

    LightRed,
    Red,
    DarkRed,

    LightYellow,
    Yellow,
    DarkYellow,

    LightGreen,
    Green,
    DarkGreen,

    LightCyan,
    Cyan,
    DarkCyan,

    LightBlue,
    Blue,
    DarkBlue,

    LightMagenta,
    Magenta,
    DarkMagenta,
}

/// The RGBA value, in the form `(r, g, b, a)`, that each colour is painted with.
pub open spec fn spec_rgba(colour: PietColour) -> (u8, u8, u8, u8) {
    match colour {
        PietColour::White => (255, 255, 255, 255),
        PietColour::Black => (0, 0, 0, 255),
        PietColour::LightRed => (255, 192, 192, 255),
        PietColour::Red => (255, 0, 0, 255),
        PietColour::DarkRed => (192, 0, 0, 255),
        PietColour::LightYellow => (255, 255, 192, 255),
        PietColour::Yellow => (255, 255, 0, 255),
        PietColour::DarkYellow => (192, 192, 0, 255),
        PietColour::LightGreen => (192, 255, 192, 255),
        PietColour::Green => (0, 255, 0, 255),
        PietColour::DarkGreen => (0, 192, 0, 255),
        PietColour::LightCyan => (192, 255, 255, 255),
        PietColour::Cyan => (0, 255, 255, 255),
        PietColour::DarkCyan => (0, 192, 192, 255),
        PietColour::LightBlue => (192, 192, 255, 255),
        PietColour::Blue => (0, 0, 255, 255),
        PietColour::DarkBlue => (0, 0, 192, 255),
        PietColour::LightMagenta => (255, 192, 255, 255),
        PietColour::Magenta => (255, 0, 255, 255),
        PietColour::DarkMagenta => (192, 0, 192, 255),
    }
}

/// The RGBA value, in the form `[r, g, b, a]`, that `colour` is painted with.
pub fn rgba(colour: PietColour) -> (c: [u8; 4])
    ensures
        (c[0], c[1], c[2], c[3]) == spec_rgba(colour),
{
    match colour {
        PietColour::White => [255, 255, 255, 255],
        PietColour::Black => [0, 0, 0, 255],
        PietColour::LightRed => [255, 192, 192, 255],
        PietColour::Red => [255, 0, 0, 255],
        PietColour::DarkRed => [192, 0, 0, 255],
        PietColour::LightYellow => [255, 255, 192, 255],
        PietColour::Yellow => [255, 255, 0, 255],
        PietColour::DarkYellow => [192, 192, 0, 255],
        PietColour::LightGreen => [192, 255, 192, 255],
        PietColour::Green => [0, 255, 0, 255],
        PietColour::DarkGreen => [0, 192, 0, 255],
        PietColour::LightCyan => [192, 255, 255, 255],
        PietColour::Cyan => [0, 255, 255, 255],
        PietColour::DarkCyan => [0, 192, 192, 255],
        PietColour::LightBlue => [192, 192, 255, 255],
        PietColour::Blue => [0, 0, 255, 255],
        PietColour::DarkBlue => [0, 0, 192, 255],
        PietColour::LightMagenta => [255, 192, 255, 255],
        PietColour::Magenta => [255, 0, 255, 255],
        PietColour::DarkMagenta => [192, 0, 192, 255],
    }
}

} // verus!

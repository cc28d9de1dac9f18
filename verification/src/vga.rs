//! Color encoding for the text-mode display sink.
//!
//! The display driver itself — the memory-mapped buffer, scrollback and
//! blink state — is a consumer of the core's output and lives with the
//! hardware, outside this crate.  The one piece of it that is plain
//! arithmetic is how a foreground/background pair packs into the single
//! attribute byte each screen cell carries; that encoding is verified
//! here and shared with the driver.

use vstd::prelude::*;

verus! {

/// The sixteen colors of the text-mode palette.
#[derive(Clone, Copy, Debug, PartialEq, Eq, Structural)]
pub enum Color {
    Black,
    Blue,
    Green,
    Cyan,
    Red,
    Magenta,
    Brown,
    LightGray,
    DarkGray,
    LightBlue,
    LightGreen,
    LightCyan,
    LightRed,
    Pink,
    Yellow,
    White,
}

/// The 4-bit palette number the hardware assigns each color.
pub open spec fn color_number(c: Color) -> u8 {
    match c {
        Color::Black => 0,
        Color::Blue => 1,
        Color::Green => 2,
        Color::Cyan => 3,
        Color::Red => 4,
        Color::Magenta => 5,
        Color::Brown => 6,
        Color::LightGray => 7,
        Color::DarkGray => 8,
        Color::LightBlue => 9,
        Color::LightGreen => 10,
        Color::LightCyan => 11,
        Color::LightRed => 12,
        Color::Pink => 13,
        Color::Yellow => 14,
        Color::White => 15,
    }
}

impl Color {
    /// The palette number as the hardware reads it.
    pub fn as_number(&self) -> (n: u8)
        ensures
            n == color_number(*self),
            n <= 15,
    {
        match self {
            Color::Black => 0,
            Color::Blue => 1,
            Color::Green => 2,
            Color::Cyan => 3,
            Color::Red => 4,
            Color::Magenta => 5,
            Color::Brown => 6,
            Color::LightGray => 7,
            Color::DarkGray => 8,
            Color::LightBlue => 9,
            Color::LightGreen => 10,
            Color::LightCyan => 11,
            Color::LightRed => 12,
            Color::Pink => 13,
            Color::Yellow => 14,
            Color::White => 15,
        }
    }
}

/// The attribute byte of one screen cell: background in the high
/// nibble, foreground in the low one.
#[derive(Clone, Copy, Debug, PartialEq, Eq, Structural)]
pub struct ColorCode(u8);

impl ColorCode {
    /// The packed byte value.
    pub closed spec fn value(self) -> u8 {
        self.0
    }

    /// The byte exactly as the hardware stores it in a screen cell.
    pub fn to_byte(&self) -> (b: u8)
        ensures
            b == self.value(),
    {
        self.0
    }

    /// Packs a foreground and a background color into one attribute
    /// byte.
    pub fn new(foreground: Color, background: Color) -> (c: ColorCode)
        ensures
            c.value() == color_number(background) * 16 + color_number(foreground),
    {
        ColorCode(background.as_number() * 16 + foreground.as_number())
    }
}

} // verus!

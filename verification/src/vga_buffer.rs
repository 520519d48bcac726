//! The colour palette of the text-mode screen.
//!
//! Screen output itself is an output device and stays outside the library;
//! what is kept here is the palette and the packing rule for a colour code
//! byte, which is plain data.

use vstd::prelude::*;

verus! {

/// The standard 16-colour text-mode palette, in hardware order.
#[derive(Debug, Clone, Copy, PartialEq, Eq, Structural)]
pub enum Color {
    Black,
    Blue,
    Green,
    Cyan,
    Red,
    Magenta,
    Brown,
    LightGray,
    DarkGray,
    LightBlue,
    LightGreen,
    LightCyan,
    LightRed,
    Pink,
    Yellow,
    White,
}

/// The palette index of a colour: its position in hardware order.
pub open spec fn color_value(c: Color) -> u8 {
    match c {
        Color::Black => 0,
        Color::Blue => 1,
        Color::Green => 2,
        Color::Cyan => 3,
        Color::Red => 4,
        Color::Magenta => 5,
        Color::Brown => 6,
        Color::LightGray => 7,
        Color::DarkGray => 8,
        Color::LightBlue => 9,
        Color::LightGreen => 10,
        Color::LightCyan => 11,
        Color::LightRed => 12,
        Color::Pink => 13,
        Color::Yellow => 14,
        Color::White => 15,
    }
}

/// Every palette index fits in four bits.
pub proof fn lemma_color_value_bound(c: Color)
    ensures
        color_value(c) <= 15,
{
}

/// The palette index of a colour, as a runtime value.
pub fn color_number(c: Color) -> (n: u8)
    ensures
        n == color_value(c),
{
    match c {
        Color::Black => 0,
        Color::Blue => 1,
        Color::Green => 2,
        Color::Cyan => 3,
        Color::Red => 4,
        Color::Magenta => 5,
        Color::Brown => 6,
        Color::LightGray => 7,
        Color::DarkGray => 8,
        Color::LightBlue => 9,
        Color::LightGreen => 10,
        Color::LightCyan => 11,
        Color::LightRed => 12,
        Color::Pink => 13,
        Color::Yellow => 14,
        Color::White => 15,
    }
}

/// A foreground and a background colour packed into one attribute byte:
/// the background in the high four bits, the foreground in the low four.
#[derive(Debug, Clone, Copy, PartialEq, Eq, Structural)]
pub struct ColorCode(pub u8);

/// The packed attribute byte for a foreground/background pair.
pub open spec fn color_code_value(foreground: Color, background: Color) -> u8 {
    (color_value(background) * 16 + color_value(foreground)) as u8
}

impl ColorCode {
    /// Packs a foreground and a background colour into one attribute byte.
    pub fn new(foreground: Color, background: Color) -> (cc: ColorCode)
        ensures
            cc.0 == color_code_value(foreground, background),
    {
        proof {
            lemma_color_value_bound(foreground);
            lemma_color_value_bound(background);
        }
        ColorCode(color_number(background) * 16 + color_number(foreground))
    }
}

} // verus!

//! Colors, the fixed palette, text attributes, and the color step of the
//! cycling effect.

use vstd::prelude::*;

verus! {

/// A color: one of the eleven palette entries, or any 24-bit RGB triple.
#[derive(Clone, Copy, Debug, PartialEq, Eq, Structural)]
pub enum Color {
    Back,
    Violet,
    Blue,
    Cyan,
    Green,
    Yellow,
    Orange,
    Red,
    Magenta,
    White,
    Grey,
    Rgb { r: u8, g: u8, b: u8 },
}

/// A text attribute that a fragment can switch on.
#[derive(Clone, Copy, Debug, PartialEq, Eq, Structural)]
pub enum Attribute {
    Bold,
    Underlined,
    Italic,
}

/// Background painted behind every styled line.
pub const BACK: Color = Color::Back;

pub const VIOLET: Color = Color::Violet;

pub const BLUE: Color = Color::Blue;

pub const CYAN: Color = Color::Cyan;

pub const GREEN: Color = Color::Green;

pub const YELLOW: Color = Color::Yellow;

pub const ORANGE: Color = Color::Orange;

pub const RED: Color = Color::Red;

pub const MAGENTA: Color = Color::Magenta;

pub const WHITE: Color = Color::White;

pub const GREY: Color = Color::Grey;

pub const BOLD: Attribute = Attribute::Bold;

pub const UNDERLINED: Attribute = Attribute::Underlined;

pub const ITALIC: Attribute = Attribute::Italic;

/// Amount added to each channel by one step of the cycling effect.
pub const COLOR_STEP: u8 = 10;

/// Exclusive upper bound of every channel that the cycle or a random draw
/// produces.
pub const CHANNEL_BOUND: u8 = 255;

impl Color {
    /// The red, green and blue channels of the color.
    pub open spec fn channels(self) -> (u8, u8, u8) {
        match self {
            Color::Back => (7u8, 54u8, 66u8),
            Color::Violet => (108u8, 113u8, 196u8),
            Color::Blue => (38u8, 139u8, 210u8),
            Color::Cyan => (42u8, 161u8, 152u8),
            Color::Green => (133u8, 153u8, 0u8),
            Color::Yellow => (181u8, 137u8, 0u8),
            Color::Orange => (203u8, 75u8, 22u8),
            Color::Red => (211u8, 1u8, 2u8),
            Color::Magenta => (211u8, 54u8, 130u8),
            Color::White => (147u8, 161u8, 161u8),
            Color::Grey => (88u8, 110u8, 117u8),
            Color::Rgb { r, g, b } => (r, g, b),
        }
    }

    /// Whether every channel lies below `CHANNEL_BOUND`.
    pub open spec fn in_cycle(self) -> bool {
        &&& self.channels().0 < CHANNEL_BOUND
        &&& self.channels().1 < CHANNEL_BOUND
        &&& self.channels().2 < CHANNEL_BOUND
    }

    /// The red, green and blue channels of the color.
    pub fn rgb(self) -> (triple: (u8, u8, u8))
        ensures
            triple == self.channels(),
    {
        match self {
            Color::Back => (7, 54, 66),
            Color::Violet => (108, 113, 196),
            Color::Blue => (38, 139, 210),
            Color::Cyan => (42, 161, 152),
            Color::Green => (133, 153, 0),
            Color::Yellow => (181, 137, 0),
            Color::Orange => (203, 75, 22),
            Color::Red => (211, 1, 2),
            Color::Magenta => (211, 54, 130),
            Color::White => (147, 161, 161),
            Color::Grey => (88, 110, 117),
            Color::Rgb { r, g, b } => (r, g, b),
        }
    }
}

/// One channel advanced by one step: the step is added and the sum wraps
/// around modulo `CHANNEL_BOUND`.
pub open spec fn step_channel(c: u8) -> u8 {
    ((c + COLOR_STEP) % (CHANNEL_BOUND as int)) as u8
}

/// The color that follows `color` in the cycle, channel by channel.
pub open spec fn step_color(color: Color) -> Color {
    Color::Rgb {
        r: step_channel(color.channels().0),
        g: step_channel(color.channels().1),
        b: step_channel(color.channels().2),
    }
}

/// `color` advanced by `n` steps of the cycle.
pub open spec fn step_color_by(color: Color, n: nat) -> Color
    decreases n,
{
    if n == 0 {
        color
    } else {
        step_color(step_color_by(color, (n - 1) as nat))
    }
}

/// Advances one channel by one step of the cycle.
pub fn next_channel(c: u8) -> (next: u8)
    ensures
        next == step_channel(c),
        next < CHANNEL_BOUND,
{
    let sum: u16 = c as u16 + COLOR_STEP as u16;
    (sum % (CHANNEL_BOUND as u16)) as u8
}

/// Advances every channel of `color` by one step of the cycle.
pub fn next_color(color: Color) -> (next: Color)
    ensures
        next == step_color(color),
        next.in_cycle(),
{
    let (r, g, b) = color.rgb();
    Color::Rgb { r: next_channel(r), g: next_channel(g), b: next_channel(b) }
}

} // verus!

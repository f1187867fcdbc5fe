//! Terminal text styling: colored and attributed text fragments rendered to
//! escape-coded strings, two per-character color effects, and a small
//! command-line argument parser.

pub mod color;
pub mod escape;
pub mod text;
pub mod format;
pub mod effects;
pub mod parser;

pub use color::{
    next_color, Attribute, Color, BACK, BLUE, BOLD, CYAN, GREEN, GREY, ITALIC, MAGENTA, ORANGE,
    RED, UNDERLINED, VIOLET, WHITE, YELLOW,
};
pub use effects::{random_color, render_hypno_colored, render_random_colored};
pub use format::{format_message, render_colored, render_fancy, render_formatted, PrintMode};
pub use parser::{Argument, ArgumentParser, ParseError, ParseResult};

//! The escape sequences that switch colors and attributes on and off.
//!
//! The sequences themselves are produced by `crossterm`, whose commands
//! write them into a string here; this module states what they are,
//! character by character. Nothing in this module touches the terminal.

use crate::color::{Attribute, Color};
use crate::text::{
    breaks_add_up, count_breaks, joins_cleanly, no_break_means_none_contained,
    no_occurrence_means_nowhere, occurrences, occurrences_add_up, occurrences_below, occurs_at,
    LINE_BREAK,
};
use vstd::prelude::*;

verus! {

/// The character that starts every escape sequence.
pub const ESCAPE: char = '\x1b';

/// The character for a single decimal digit.
pub open spec fn digit_char(d: int) -> char {
    if d == 0 {
        '0'
    } else if d == 1 {
        '1'
    } else if d == 2 {
        '2'
    } else if d == 3 {
        '3'
    } else if d == 4 {
        '4'
    } else if d == 5 {
        '5'
    } else if d == 6 {
        '6'
    } else if d == 7 {
        '7'
    } else if d == 8 {
        '8'
    } else {
        '9'
    }
}

/// The decimal numeral of `n`, without leading zeros.
pub open spec fn decimal(n: nat) -> Seq<char>
    decreases n,
{
    if n < 10 {
        seq![digit_char(n as int)]
    } else {
        decimal(n / 10).push(digit_char((n % 10) as int))
    }
}

/// A "select graphic rendition" sequence with the given parameters.
pub open spec fn sgr(params: Seq<char>) -> Seq<char> {
    seq![ESCAPE, '['] + params + seq!['m']
}

/// The three channels in decimal, separated by semicolons.
pub open spec fn rgb_params(r: u8, g: u8, b: u8) -> Seq<char> {
    decimal(r as nat) + seq![';'] + decimal(g as nat) + seq![';'] + decimal(b as nat)
}

/// The sequence that selects the foreground color with the given channels.
pub open spec fn foreground_rgb_code(r: u8, g: u8, b: u8) -> Seq<char> {
    sgr(seq!['3', '8', ';', '2', ';'] + rgb_params(r, g, b))
}

/// The sequence that selects the background color with the given channels.
pub open spec fn background_rgb_code(r: u8, g: u8, b: u8) -> Seq<char> {
    sgr(seq!['4', '8', ';', '2', ';'] + rgb_params(r, g, b))
}

/// The sequence that selects `color` as the foreground.
pub open spec fn foreground_code(color: Color) -> Seq<char> {
    foreground_rgb_code(color.channels().0, color.channels().1, color.channels().2)
}

/// The sequence that selects `color` as the background.
pub open spec fn background_code(color: Color) -> Seq<char> {
    background_rgb_code(color.channels().0, color.channels().1, color.channels().2)
}

/// The sequence that switches `attribute` on.
pub open spec fn attribute_code(attribute: Attribute) -> Seq<char> {
    match attribute {
        Attribute::Bold => sgr(seq!['1']),
        Attribute::Italic => sgr(seq!['3']),
        Attribute::Underlined => sgr(seq!['4']),
    }
}

/// The sequence that restores the terminal's default colors and attributes.
pub open spec fn reset_code() -> Seq<char> {
    sgr(seq!['0'])
}

/// Calls `crossterm::Command::write_ansi` on the command
/// `crossterm::style::SetForegroundColor` for an RGB color, with an empty
/// string as the writer. The contract claims that the string then holds
/// `ESC [ 38;2;` followed by the three channels in decimal, separated by
/// `;`, and `m`. Writing into a string does not fail, so the result of the
/// call holds no error.
#[verifier::external_body]
fn set_foreground_rgb(r: u8, g: u8, b: u8) -> (code: String)
    ensures
        code@ == foreground_rgb_code(r, g, b),
{
    let command = crossterm::style::SetForegroundColor(crossterm::style::Color::Rgb { r, g, b });
    let mut code = String::new();
    let _ = crossterm::Command::write_ansi(&command, &mut code);
    code
}

/// Calls `crossterm::Command::write_ansi` on the command
/// `crossterm::style::SetBackgroundColor` for an RGB color, with an empty
/// string as the writer. The contract claims that the string then holds
/// `ESC [ 48;2;` followed by the three channels in decimal, separated by
/// `;`, and `m`. Writing into a string does not fail, so the result of the
/// call holds no error.
#[verifier::external_body]
fn set_background_rgb(r: u8, g: u8, b: u8) -> (code: String)
    ensures
        code@ == background_rgb_code(r, g, b),
{
    let command = crossterm::style::SetBackgroundColor(crossterm::style::Color::Rgb { r, g, b });
    let mut code = String::new();
    let _ = crossterm::Command::write_ansi(&command, &mut code);
    code
}

/// Calls `crossterm::Command::write_ansi` on the command
/// `crossterm::style::SetAttribute`, with an empty string as the writer.
/// The contract claims that the string then holds `ESC [ 1 m` for bold,
/// `ESC [ 3 m` for italic and `ESC [ 4 m` for underlined. Writing into a
/// string does not fail, so the result of the call holds no error.
#[verifier::external_body]
pub(crate) fn set_attribute(attribute: Attribute) -> (code: String)
    ensures
        code@ == attribute_code(attribute),
{
    let outside = match attribute {
        Attribute::Bold => crossterm::style::Attribute::Bold,
        Attribute::Italic => crossterm::style::Attribute::Italic,
        Attribute::Underlined => crossterm::style::Attribute::Underlined,
    };
    let mut code = String::new();
    let _ = crossterm::Command::write_ansi(&crossterm::style::SetAttribute(outside), &mut code);
    code
}

/// Calls `crossterm::Command::write_ansi` on the command
/// `crossterm::style::ResetColor`, with an empty string as the writer. The
/// contract claims that the string then holds `ESC [ 0 m`. Writing into a
/// string does not fail, so the result of the call holds no error.
#[verifier::external_body]
pub(crate) fn reset_color() -> (code: String)
    ensures
        code@ == reset_code(),
{
    let mut code = String::new();
    let _ = crossterm::Command::write_ansi(&crossterm::style::ResetColor, &mut code);
    code
}

/// The escape sequence that makes `color` the foreground color.
pub fn foreground(color: Color) -> (code: String)
    ensures
        code@ == foreground_code(color),
{
    let (r, g, b) = color.rgb();
    set_foreground_rgb(r, g, b)
}

/// The escape sequence that makes `color` the background color.
pub fn background(color: Color) -> (code: String)
    ensures
        code@ == background_code(color),
{
    let (r, g, b) = color.rgb();
    set_background_rgb(r, g, b)
}

/// Whether none of the last three characters is the escape character, so
/// that no reset sequence can begin in `text` and end after it.
pub open spec fn settled(text: Seq<char>) -> bool {
    forall|at: int| 0 <= at < text.len() && text.len() - 3 <= at ==> text[at] != ESCAPE
}

/// Whether `text` holds neither an escape character nor a line break.
pub open spec fn plain(text: Seq<char>) -> bool {
    forall|i: int| 0 <= i < text.len() ==> text[i] != ESCAPE && text[i] != LINE_BREAK
}

/// Whether `text` adds nothing that a reader of the output counts: it is
/// settled, and holds no line break and no reset sequence.
pub open spec fn quiet(text: Seq<char>) -> bool {
    &&& settled(text)
    &&& count_breaks(text) == 0
    &&& occurrences(text, reset_code()) == 0
}

/// After a settled text no reset sequence straddles the joint.
pub proof fn reset_joins_after_settled(left: Seq<char>, right: Seq<char>)
    requires
        settled(left),
    ensures
        joins_cleanly(left, right, reset_code()),
{
    assert forall|at: int| left.len() - reset_code().len() < at < left.len() implies !occurs_at(
        left + right,
        reset_code(),
        at,
    ) by {
        if occurs_at(left + right, reset_code(), at) {
            assert((left + right).subrange(at, at + 4)[0] == reset_code()[0]);
            assert(left[at] == ESCAPE);
        }
    }
}

/// Before a text that begins with the escape character no reset sequence
/// straddles the joint.
pub proof fn reset_joins_before_escape(left: Seq<char>, right: Seq<char>)
    requires
        right.len() > 0,
        right[0] == ESCAPE,
    ensures
        joins_cleanly(left, right, reset_code()),
{
    assert forall|at: int| left.len() - reset_code().len() < at < left.len() implies !occurs_at(
        left + right,
        reset_code(),
        at,
    ) by {
        if occurs_at(left + right, reset_code(), at) {
            let k = left.len() - at;
            assert((left + right).subrange(at, at + 4)[k] == reset_code()[k]);
            assert((left + right)[left.len() as int] == ESCAPE);
        }
    }
}

/// Two settled texts joined are settled.
pub proof fn settled_joined(left: Seq<char>, right: Seq<char>)
    requires
        settled(left),
        settled(right),
    ensures
        settled(left + right),
{
}

/// Whatever stands before a settled text of three or more characters, the
/// whole is settled.
pub proof fn settled_by_end(left: Seq<char>, right: Seq<char>)
    requires
        settled(right),
        right.len() >= 3,
    ensures
        settled(left + right),
{
}

/// Two quiet texts joined are quiet.
pub proof fn quiet_joined(left: Seq<char>, right: Seq<char>)
    requires
        quiet(left),
        quiet(right),
    ensures
        quiet(left + right),
{
    settled_joined(left, right);
    breaks_add_up(left, right);
    reset_joins_after_settled(left, right);
    occurrences_add_up(left, right, reset_code());
}

/// A decimal numeral holds digits only.
pub proof fn decimal_is_plain(n: nat)
    ensures
        plain(decimal(n)),
        decimal(n).len() >= 1,
    decreases n,
{
    if n >= 10 {
        decimal_is_plain(n / 10);
    }
}

/// A sequence with plain parameters that do not begin with `0` is quiet and
/// begins with the escape character.
pub proof fn sgr_is_quiet(params: Seq<char>)
    requires
        plain(params),
        params.len() >= 1,
        params[0] != '0',
    ensures
        quiet(sgr(params)),
        sgr(params).len() >= 4,
        sgr(params)[0] == ESCAPE,
{
    let code = sgr(params);
    assert(code.len() == params.len() + 3);
    assert forall|i: int| 0 <= i < code.len() implies code[i] != LINE_BREAK && (i > 0 ==> code[i]
        != ESCAPE) by {
        if 2 <= i < 2 + params.len() {
            assert(code[i] == params[i - 2]);
        }
    }
    no_break_means_none_contained(code);
    assert forall|at: int| !occurs_at(code, reset_code(), at) by {
        if occurs_at(code, reset_code(), at) {
            assert(code.subrange(at, at + 4)[0] == reset_code()[0]);
            assert(code[at] == ESCAPE);
            assert(code.subrange(at, at + 4)[2] == reset_code()[2]);
            assert(code[2] == params[0]);
        }
    }
    no_occurrence_means_nowhere(code, reset_code());
}

/// The reset sequence is settled, holds no line break, and occurs in itself
/// once.
pub proof fn reset_is_one_reset()
    ensures
        settled(reset_code()),
        count_breaks(reset_code()) == 0,
        occurrences(reset_code(), reset_code()) == 1,
        reset_code().len() == 4,
        reset_code()[0] == ESCAPE,
{
    let code = reset_code();
    assert(code =~= seq![ESCAPE, '[', '0', 'm']);
    no_break_means_none_contained(code);
    assert(code.subrange(0, 4) == code);
    assert(occurs_at(code, code, 0));
    reveal_with_fuel(occurrences_below, 5);
}

/// The three channels in decimal with semicolons between them are plain.
pub proof fn rgb_params_are_plain(r: u8, g: u8, b: u8)
    ensures
        plain(rgb_params(r, g, b)),
{
    decimal_is_plain(r as nat);
    decimal_is_plain(g as nat);
    decimal_is_plain(b as nat);
}

/// The sequences that select a color are quiet and begin with the escape
/// character.
pub proof fn color_codes_are_quiet(color: Color)
    ensures
        quiet(foreground_code(color)),
        foreground_code(color).len() >= 4,
        foreground_code(color)[0] == ESCAPE,
        quiet(background_code(color)),
        background_code(color).len() >= 4,
        background_code(color)[0] == ESCAPE,
{
    let (r, g, b) = color.channels();
    rgb_params_are_plain(r, g, b);
    sgr_is_quiet(seq!['3', '8', ';', '2', ';'] + rgb_params(r, g, b));
    sgr_is_quiet(seq!['4', '8', ';', '2', ';'] + rgb_params(r, g, b));
}

/// The sequence that switches an attribute on is quiet and begins with the
/// escape character.
pub proof fn attribute_code_is_quiet(attribute: Attribute)
    ensures
        quiet(attribute_code(attribute)),
        attribute_code(attribute).len() >= 4,
        attribute_code(attribute)[0] == ESCAPE,
{
    sgr_is_quiet(seq!['1']);
    sgr_is_quiet(seq!['3']);
    sgr_is_quiet(seq!['4']);
}

} // verus!

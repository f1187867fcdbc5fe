//! The two per-character effects: every character in colors of its own,
//! drawn at random or taken from a cycle that starts at a given pair.

use crate::color::{next_color, step_color, step_color_by, Color, CHANNEL_BOUND};
use crate::escape::{
    background, background_code, color_codes_are_quiet, foreground, foreground_code, quiet_joined,
    reset_code, reset_color, reset_is_one_reset, reset_joins_after_settled,
    reset_joins_before_escape, settled, settled_by_end,
};
use crate::format::{end_line, frame, framed, line_end, PrintMode};
use crate::text::{occurrences, occurrences_add_up, occurrences_below, push_char};
use rand::Rng;
use vstd::prelude::*;
use vstd::string::{StrSliceExecFns, StringExecFns};

verus! {

/// One character between its own background and foreground and a reset.
pub open spec fn styled_char(c: char, foreground: Color, background: Color) -> Seq<char> {
    background_code(background) + foreground_code(foreground) + seq![c] + reset_code()
}

/// Every character of `text` styled on its own, the i-th one with the i-th
/// `(foreground, background)` pair.
pub open spec fn styled_chars(text: Seq<char>, colors: Seq<(Color, Color)>) -> Seq<char>
    decreases text.len(),
{
    if text.len() == 0 {
        Seq::<char>::empty()
    } else {
        let last = text.len() - 1;
        styled_chars(text.drop_last(), colors) + styled_char(
            text[last],
            colors[last].0,
            colors[last].1,
        )
    }
}

/// Whether every color of every pair has all its channels below
/// `CHANNEL_BOUND`.
pub open spec fn all_in_cycle(colors: Seq<(Color, Color)>) -> bool {
    forall|i: int| 0 <= i < colors.len() ==> (#[trigger] colors[i]).0.in_cycle() && colors[i].1.in_cycle()
}

/// The pairs of the cycling effect: the i-th pair is the starting pair
/// advanced by `i + 1` steps.
pub open spec fn cycle_pairs(foreground: Color, background: Color, count: nat) -> Seq<
    (Color, Color),
> {
    Seq::new(
        count,
        |i: int| (step_color_by(foreground, (i + 1) as nat), step_color_by(background, (i + 1) as nat)),
    )
}

/// Calls `rand::thread_rng` and, on the generator it returns,
/// `rand::Rng::gen_range` with the half-open range from 0 to `bound`. The
/// contract claims only that the number drawn lies in that range;
/// `gen_range` panics on an empty range, which `requires` leaves out.
#[verifier::external_body]
fn random_below(bound: u8) -> (value: u8)
    requires
        bound > 0,
    ensures
        value < bound,
{
    rand::thread_rng().gen_range(0..bound)
}

/// A color with every channel drawn at random below `CHANNEL_BOUND`.
pub fn random_color() -> (color: Color)
    ensures
        color is Rgb,
        color.in_cycle(),
{
    let r = random_below(CHANNEL_BOUND);
    let g = random_below(CHANNEL_BOUND);
    let b = random_below(CHANNEL_BOUND);
    Color::Rgb { r, g, b }
}

/// `count` pairs of random colors, each pair a foreground and a background.
pub fn random_pairs(count: usize) -> (colors: Vec<(Color, Color)>)
    ensures
        colors.len() == count,
        all_in_cycle(colors@),
{
    let mut colors: Vec<(Color, Color)> = Vec::new();
    for i in 0..count
        invariant
            colors.len() == i,
            all_in_cycle(colors@),
    {
        let foreground = random_color();
        let background = random_color();
        colors.push((foreground, background));
    }
    colors
}

/// The first `count` pairs of the cycle that starts at the given pair.
pub fn cycle(foreground: Color, background: Color, count: usize) -> (colors: Vec<(Color, Color)>)
    ensures
        colors@ == cycle_pairs(foreground, background, count as nat),
{
    let mut colors: Vec<(Color, Color)> = Vec::new();
    let mut fg = foreground;
    let mut bg = background;
    for i in 0..count
        invariant
            fg == step_color_by(foreground, i as nat),
            bg == step_color_by(background, i as nat),
            colors@ == cycle_pairs(foreground, background, i as nat),
    {
        fg = next_color(fg);
        bg = next_color(bg);
        colors.push((fg, bg));
    }
    colors
}

/// Styles every character of `message` on its own, the i-th one with the
/// i-th pair of `colors`.
pub fn format_chars(message: &str, colors: &Vec<(Color, Color)>) -> (formatted_message: String)
    requires
        message@.len() <= colors.len(),
    ensures
        formatted_message@ == styled_chars(message@, colors@),
{
    let reset = reset_color();
    let mut formatted_message = String::new();
    let mut i: usize = 0;
    for c in it: message.chars()
        invariant
            it.seq() == message@,
            i == it.index(),
            message@.len() <= colors.len(),
            reset@ == reset_code(),
            formatted_message@ == styled_chars(message@.take(i as int), colors@),
    {
        assert(message@.take(i + 1).drop_last() == message@.take(i as int));
        let (fg, bg) = colors[i];
        formatted_message.append(background(bg).as_str());
        formatted_message.append(foreground(fg).as_str());
        push_char(&mut formatted_message, c);
        formatted_message.append(reset.as_str());
        i += 1;
    }
    assert(message@.take(message@.len() as int) == message@);
    formatted_message
}

/// The text that printing `message` in `mode` with random colors writes:
/// every character in a random pair of its own, the whole framed.
pub fn render_random_colored(message: &str, mode: PrintMode) -> (text: String)
    ensures
        exists|colors: Seq<(Color, Color)>|
            {
                &&& colors.len() == message@.len()
                &&& all_in_cycle(colors)
                &&& text@ == #[trigger] framed(styled_chars(message@, colors), mode)
            },
{
    let colors = random_pairs(message.unicode_len());
    let formatted_message = format_chars(message, &colors);
    frame(formatted_message.as_str(), mode)
}

/// The text that printing `message` in `mode` with cycling colors writes
/// when the cycle starts at the given pair: the i-th character in the pair
/// advanced by `i + 1` steps, then the line end. Nothing frames it.
pub fn render_hypno_colored_from(
    message: &str,
    foreground: Color,
    background: Color,
    mode: PrintMode,
) -> (text: String)
    ensures
        text@ == styled_chars(message@, cycle_pairs(foreground, background, message@.len()))
            + line_end(mode),
{
    let colors = cycle(foreground, background, message.unicode_len());
    let formatted_message = format_chars(message, &colors);
    end_line(formatted_message, mode)
}

/// The text that printing `message` in `mode` with cycling colors writes:
/// as `render_hypno_colored_from`, the cycle starting at a random pair.
pub fn render_hypno_colored(message: &str, mode: PrintMode) -> (text: String)
    ensures
        exists|foreground: Color, background: Color|
            {
                &&& foreground.in_cycle()
                &&& background.in_cycle()
                &&& text@ == #[trigger] styled_chars(
                    message@,
                    cycle_pairs(foreground, background, message@.len()),
                ) + line_end(mode)
            },
{
    let foreground = random_color();
    let background = random_color();
    render_hypno_colored_from(message, foreground, background, mode)
}

/// Whatever the character and the colors, a styled character holds exactly
/// one reset sequence, at its end.
pub proof fn styled_char_holds_one_reset(c: char, foreground: Color, background: Color)
    ensures
        occurrences(styled_char(c, foreground, background), reset_code()) == 1,
        settled(styled_char(c, foreground, background)),
{
    let opening = background_code(background) + foreground_code(foreground);
    color_codes_are_quiet(background);
    color_codes_are_quiet(foreground);
    quiet_joined(background_code(background), foreground_code(foreground));
    reset_is_one_reset();
    assert(occurrences(seq![c], reset_code()) == 0) by {
        reveal_with_fuel(occurrences_below, 2);
    }
    reset_joins_after_settled(opening, seq![c]);
    occurrences_add_up(opening, seq![c], reset_code());
    reset_joins_before_escape(opening + seq![c], reset_code());
    occurrences_add_up(opening + seq![c], reset_code(), reset_code());
    settled_by_end(opening + seq![c], reset_code());
}

/// Whatever the text and the colors, the styled characters hold exactly one
/// reset sequence per character of the text.
pub proof fn styled_chars_hold_a_reset_per_character(text: Seq<char>, colors: Seq<(Color, Color)>)
    ensures
        occurrences(styled_chars(text, colors), reset_code()) == text.len(),
        settled(styled_chars(text, colors)),
    decreases text.len(),
{
    if text.len() > 0 {
        let last = text.len() - 1;
        let before = styled_chars(text.drop_last(), colors);
        let styled = styled_char(text[last], colors[last].0, colors[last].1);
        styled_chars_hold_a_reset_per_character(text.drop_last(), colors);
        styled_char_holds_one_reset(text[last], colors[last].0, colors[last].1);
        reset_is_one_reset();
        reset_joins_after_settled(before, styled);
        occurrences_add_up(before, styled, reset_code());
        crate::escape::settled_joined(before, styled);
    } else {
        assert(occurrences(Seq::<char>::empty(), reset_code()) == 0);
    }
}

/// A color advanced by one step or more is fixed by the channels it started
/// from, and has every channel below `CHANNEL_BOUND`.
pub proof fn steps_depend_on_channels(first: Color, second: Color, steps: nat)
    requires
        first.channels() == second.channels(),
        steps >= 1,
    ensures
        step_color_by(first, steps) == step_color_by(second, steps),
        step_color_by(first, steps).in_cycle(),
    decreases steps,
{
    if steps > 1 {
        steps_depend_on_channels(first, second, (steps - 1) as nat);
    } else {
        assert(step_color_by(first, 0) == first);
        assert(step_color_by(second, 0) == second);
        assert(step_color(first) == step_color(second));
    }
}

/// The colors of the cycling effect are fixed by the channels of the
/// starting pair and the number of characters: two cycles from pairs with
/// the same channels are the same, pair by pair.
pub proof fn cycle_is_fixed_by_its_start(
    foreground: Color,
    background: Color,
    other_foreground: Color,
    other_background: Color,
    count: nat,
)
    requires
        foreground.channels() == other_foreground.channels(),
        background.channels() == other_background.channels(),
    ensures
        cycle_pairs(foreground, background, count) == cycle_pairs(
            other_foreground,
            other_background,
            count,
        ),
        all_in_cycle(cycle_pairs(foreground, background, count)),
{
    let pairs = cycle_pairs(foreground, background, count);
    let other_pairs = cycle_pairs(other_foreground, other_background, count);
    assert forall|i: int| 0 <= i < count implies pairs[i] == other_pairs[i] && (
    #[trigger] pairs[i]).0.in_cycle() && pairs[i].1.in_cycle() by {
        steps_depend_on_channels(foreground, other_foreground, (i + 1) as nat);
        steps_depend_on_channels(background, other_background, (i + 1) as nat);
    }
    assert(pairs =~= other_pairs);
}

/// The cycle for a shorter message is the beginning of the cycle for a
/// longer one from the same start.
pub proof fn shorter_cycle_is_a_prefix(
    foreground: Color,
    background: Color,
    count: nat,
    longer: nat,
)
    requires
        count <= longer,
    ensures
        cycle_pairs(foreground, background, count) == cycle_pairs(
            foreground,
            background,
            longer,
        ).take(count as int),
{
    assert(cycle_pairs(foreground, background, count) =~= cycle_pairs(
        foreground,
        background,
        longer,
    ).take(count as int));
}

} // verus!

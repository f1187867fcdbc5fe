//! The formatter: text fragments rendered line by line, each line wrapped in
//! the escape sequences that open and close its styling.

use crate::color::{Attribute, Color, BACK};
use crate::escape::{
    attribute_code, attribute_code_is_quiet, background, background_code, color_codes_are_quiet,
    foreground, foreground_code, quiet, quiet_joined, reset_code, reset_color, reset_is_one_reset,
    reset_joins_after_settled, reset_joins_before_escape, set_attribute, settled, settled_by_end,
    ESCAPE,
};
use crate::text::{
    breaks_add_up, count_breaks, join_lines, lines_count, lines_hold_no_occurrence, lines_join_back,
    lines_of, no_break_means_none_contained, occurrences, occurrences_add_up, push_char,
    split_lines, texts_of, unbroken_text_is_one_line, LINE_BREAK,
};
use vstd::prelude::*;
use vstd::string::StringExecFns;

verus! {

/// Whether the written text ends with a line break.
#[derive(Clone, Copy, Debug, PartialEq, Eq, Structural)]
pub enum PrintMode {
    NewLine,
    SameLine,
}

/// A fragment as the contracts see it: its text, its foreground color and
/// its attributes in the order in which they are switched on.
pub struct Fragment {
    pub text: Seq<char>,
    pub color: Color,
    pub attributes: Seq<Attribute>,
}

/// The fragments that a slice of `(text, color, attributes)` triples stands
/// for.
pub open spec fn fragments_of(triples: Seq<(&str, Color, Vec<Attribute>)>) -> Seq<Fragment> {
    Seq::new(
        triples.len(),
        |i: int| Fragment { text: triples[i].0@, color: triples[i].1, attributes: triples[i].2@ },
    )
}

/// The sequences of all `attributes`, in order.
pub open spec fn attribute_codes(attributes: Seq<Attribute>) -> Seq<char>
    decreases attributes.len(),
{
    if attributes.len() == 0 {
        Seq::<char>::empty()
    } else {
        attribute_codes(attributes.drop_last()) + attribute_code(attributes.last())
    }
}

/// What opens a styled line: the palette background, the foreground color,
/// then every attribute.
pub open spec fn line_opening(color: Color, attributes: Seq<Attribute>) -> Seq<char> {
    background_code(BACK) + foreground_code(color) + attribute_codes(attributes)
}

/// One line with its styling opened before it and reset after it.
pub open spec fn styled_line(line: Seq<char>, color: Color, attributes: Seq<Attribute>) -> Seq<
    char,
> {
    line_opening(color, attributes) + line + reset_code()
}

/// The styled lines in order, with a line break between each two.
pub open spec fn styled_lines(
    lines: Seq<Seq<char>>,
    color: Color,
    attributes: Seq<Attribute>,
) -> Seq<char>
    decreases lines.len(),
{
    if lines.len() == 0 {
        Seq::<char>::empty()
    } else if lines.len() == 1 {
        styled_line(lines[0], color, attributes)
    } else {
        styled_lines(lines.drop_last(), color, attributes) + seq![LINE_BREAK] + styled_line(
            lines.last(),
            color,
            attributes,
        )
    }
}

/// The first `count` styled lines, with the line break that leads to the
/// next line if there is one.
spec fn lines_begun(
    lines: Seq<Seq<char>>,
    count: int,
    color: Color,
    attributes: Seq<Attribute>,
) -> Seq<char> {
    if 0 < count < lines.len() {
        styled_lines(lines.take(count), color, attributes) + seq![LINE_BREAK]
    } else {
        styled_lines(lines.take(count), color, attributes)
    }
}

/// A fragment rendered: each of its lines styled on its own.
pub open spec fn styled_fragment(fragment: Fragment) -> Seq<char> {
    styled_lines(lines_of(fragment.text), fragment.color, fragment.attributes)
}

/// The rendered fragments one after another, with nothing between them.
pub open spec fn formatted(fragments: Seq<Fragment>) -> Seq<char>
    decreases fragments.len(),
{
    if fragments.len() == 0 {
        Seq::<char>::empty()
    } else {
        formatted(fragments.drop_last()) + styled_fragment(fragments.last())
    }
}

/// The escape sequences that open a line of the given color and attributes.
pub fn open_line(color: Color, attributes: &Vec<Attribute>) -> (opening: String)
    ensures
        opening@ == line_opening(color, attributes@),
{
    let mut opening = background(BACK);
    opening.append(foreground(color).as_str());
    for i in 0..attributes.len()
        invariant
            opening@ == background_code(BACK) + foreground_code(color) + attribute_codes(
                attributes@.take(i as int),
            ),
    {
        assert(attributes@.take(i + 1).drop_last() == attributes@.take(i as int));
        opening.append(set_attribute(attributes[i]).as_str());
    }
    assert(attributes@.take(attributes@.len() as int) == attributes@);
    opening
}

/// Renders the fragments: every line of every fragment gets the background,
/// the fragment's color and attributes before it and a reset after it, and
/// the line breaks of the text stay between the lines.
pub fn format_message(message_fragments: &[(&str, Color, Vec<Attribute>)]) -> (formatted_message:
    String)
    ensures
        formatted_message@ == formatted(fragments_of(message_fragments@)),
{
    let ghost fragments = fragments_of(message_fragments@);
    let mut formatted_message = String::new();
    for k in 0..message_fragments.len()
        invariant
            fragments == fragments_of(message_fragments@),
            formatted_message@ == formatted(fragments.take(k as int)),
    {
        assert(fragments.take(k + 1).drop_last() == fragments.take(k as int));
        let ghost done = formatted_message@;
        let message = message_fragments[k].0;
        let color = message_fragments[k].1;
        let opening = open_line(color, &message_fragments[k].2);
        let reset = reset_color();
        let lines = split_lines(message);
        let ghost attributes = fragments[k as int].attributes;
        let ghost line_texts = texts_of(lines@);
        for i in 0..lines.len()
            invariant
                lines.len() >= 1,
                line_texts == texts_of(lines@),
                opening@ == line_opening(color, attributes),
                reset@ == reset_code(),
                formatted_message@ == done + lines_begun(line_texts, i as int, color, attributes),
        {
            let ghost begun = lines_begun(line_texts, i as int, color, attributes);
            formatted_message.append(opening.as_str());
            formatted_message.append(lines[i].as_str());
            formatted_message.append(reset.as_str());
            if i < lines.len() - 1 {
                push_char(&mut formatted_message, LINE_BREAK);
            }
            proof {
                let taken = line_texts.take(i + 1);
                let segment = styled_line(line_texts[i as int], color, attributes);
                assert(taken.drop_last() == line_texts.take(i as int));
                assert(taken.last() == line_texts[i as int]);
                assert(styled_lines(taken, color, attributes) == begun + segment);
                assert(formatted_message@ == done + lines_begun(
                    line_texts,
                    i + 1,
                    color,
                    attributes,
                ));
            }
        }
        assert(line_texts.take(lines@.len() as int) == line_texts);
    }
    assert(fragments.take(fragments.len() as int) == fragments);
    formatted_message
}

/// What ends the written text: a line break in `NewLine` mode, nothing in
/// `SameLine` mode.
pub open spec fn line_end(mode: PrintMode) -> Seq<char> {
    match mode {
        PrintMode::NewLine => seq![LINE_BREAK],
        PrintMode::SameLine => Seq::<char>::empty(),
    }
}

/// A body between the palette background and a reset, then the line end.
pub open spec fn framed(body: Seq<char>, mode: PrintMode) -> Seq<char> {
    background_code(BACK) + body + reset_code() + line_end(mode)
}

/// The texts of a sequence of string slices.
pub open spec fn slice_texts(message: Seq<&str>) -> Seq<Seq<char>> {
    Seq::new(message.len(), |i: int| message[i]@)
}

/// One fragment per text, without attributes, the colors taken in turn and
/// starting over when they run out.
pub open spec fn cycled_fragments(texts: Seq<Seq<char>>, colors: Seq<Color>) -> Seq<Fragment> {
    Seq::new(
        texts.len(),
        |i: int|
            Fragment {
                text: texts[i],
                color: colors[i % (colors.len() as int)],
                attributes: Seq::<Attribute>::empty(),
            },
    )
}

/// Appends the line end of `mode` to `body`.
pub fn end_line(body: String, mode: PrintMode) -> (text: String)
    ensures
        text@ == body@ + line_end(mode),
{
    let mut text = body;
    match mode {
        PrintMode::NewLine => {
            push_char(&mut text, LINE_BREAK);
        },
        PrintMode::SameLine => {},
    }
    text
}

/// Puts `body` between the palette background and a reset and appends the
/// line end of `mode`.
pub fn frame(body: &str, mode: PrintMode) -> (text: String)
    ensures
        text@ == framed(body@, mode),
{
    let mut text = background(BACK);
    text.append(body);
    text.append(reset_color().as_str());
    end_line(text, mode)
}

/// The text that printing the fragments in `mode` writes: the formatted
/// fragments, framed.
pub fn render_formatted(message_fragments: &[(&str, Color, Vec<Attribute>)], mode: PrintMode) -> (text:
    String)
    ensures
        text@ == framed(formatted(fragments_of(message_fragments@)), mode),
{
    let formatted_message = format_message(message_fragments);
    frame(formatted_message.as_str(), mode)
}

/// The text that printing the fragments in `mode` writes.
pub fn render_fancy(message_fragments: &[(&str, Color, Vec<Attribute>)], mode: PrintMode) -> (text:
    String)
    ensures
        text@ == framed(formatted(fragments_of(message_fragments@)), mode),
{
    render_formatted(message_fragments, mode)
}

/// Pairs every text with a color, taking the colors in turn and starting
/// over when they run out. No fragment gets an attribute.
pub fn color_fragments<'a>(message: &[&'a str], colors: &[Color]) -> (fragments: Vec<
    (&'a str, Color, Vec<Attribute>),
>)
    requires
        message.len() > 0 ==> colors.len() > 0,
    ensures
        fragments_of(fragments@) == cycled_fragments(slice_texts(message@), colors@),
{
    let mut fragments: Vec<(&'a str, Color, Vec<Attribute>)> = Vec::new();
    for i in 0..message.len()
        invariant
            message.len() > 0 ==> colors.len() > 0,
            fragments@.len() == i,
            fragments_of(fragments@) == cycled_fragments(
                slice_texts(message@.take(i as int)),
                colors@,
            ),
    {
        let ghost before = fragments@;
        fragments.push((message[i], colors[i % colors.len()], Vec::new()));
        assert forall|j: int| 0 <= j <= i implies fragments_of(fragments@)[j] == cycled_fragments(
            slice_texts(message@.take(i + 1)),
            colors@,
        )[j] by {
            if j < i {
                assert(fragments_of(before)[j] == cycled_fragments(
                    slice_texts(message@.take(i as int)),
                    colors@,
                )[j]);
            }
        }
        assert(fragments_of(fragments@) =~= cycled_fragments(
            slice_texts(message@.take(i + 1)),
            colors@,
        ));
    }
    assert(message@.take(message@.len() as int) == message@);
    fragments
}

/// The text that printing `message` in `mode` writes, the i-th text in the
/// i-th color, counted cyclically.
pub fn render_colored(message: &[&str], colors: &[Color], mode: PrintMode) -> (text: String)
    requires
        message.len() > 0 ==> colors.len() > 0,
    ensures
        text@ == framed(formatted(cycled_fragments(slice_texts(message@), colors@)), mode),
{
    let fragments = color_fragments(message, colors);
    render_formatted(fragments.as_slice(), mode)
}

/// The number of line breaks in the texts of all the fragments.
pub open spec fn total_breaks(fragments: Seq<Fragment>) -> nat
    decreases fragments.len(),
{
    if fragments.len() == 0 {
        0
    } else {
        total_breaks(fragments.drop_last()) + count_breaks(fragments.last().text)
    }
}

/// The sequences of any attributes are quiet.
pub proof fn attribute_codes_are_quiet(attributes: Seq<Attribute>)
    ensures
        quiet(attribute_codes(attributes)),
    decreases attributes.len(),
{
    if attributes.len() > 0 {
        attribute_codes_are_quiet(attributes.drop_last());
        attribute_code_is_quiet(attributes.last());
        quiet_joined(attribute_codes(attributes.drop_last()), attribute_code(attributes.last()));
    }
}

/// What opens a line is quiet and begins with the escape character.
pub proof fn opening_is_quiet(color: Color, attributes: Seq<Attribute>)
    ensures
        quiet(line_opening(color, attributes)),
        line_opening(color, attributes).len() >= 4,
        line_opening(color, attributes)[0] == ESCAPE,
{
    color_codes_are_quiet(BACK);
    color_codes_are_quiet(color);
    attribute_codes_are_quiet(attributes);
    quiet_joined(background_code(BACK), foreground_code(color));
    quiet_joined(background_code(BACK) + foreground_code(color), attribute_codes(attributes));
}

/// A styled line holds the line breaks of its text and no others.
pub proof fn styled_line_keeps_breaks(line: Seq<char>, color: Color, attributes: Seq<Attribute>)
    ensures
        count_breaks(styled_line(line, color, attributes)) == count_breaks(line),
{
    let opening = line_opening(color, attributes);
    opening_is_quiet(color, attributes);
    reset_is_one_reset();
    breaks_add_up(opening, line);
    breaks_add_up(opening + line, reset_code());
}

/// Styled lines hold the line breaks that joining their texts gives: those
/// of the texts and one between each two lines.
pub proof fn styled_lines_keep_breaks(
    lines: Seq<Seq<char>>,
    color: Color,
    attributes: Seq<Attribute>,
)
    ensures
        count_breaks(styled_lines(lines, color, attributes)) == count_breaks(join_lines(lines)),
    decreases lines.len(),
{
    if lines.len() == 1 {
        styled_line_keeps_breaks(lines[0], color, attributes);
    } else if lines.len() > 1 {
        let before = styled_lines(lines.drop_last(), color, attributes);
        let last = styled_line(lines.last(), color, attributes);
        let break_text = seq![LINE_BREAK];
        styled_lines_keep_breaks(lines.drop_last(), color, attributes);
        styled_line_keeps_breaks(lines.last(), color, attributes);
        breaks_add_up(before, break_text);
        breaks_add_up(before + break_text, last);
        breaks_add_up(join_lines(lines.drop_last()), break_text);
        breaks_add_up(join_lines(lines.drop_last()) + break_text, lines.last());
    }
}

/// A rendered fragment whose text holds `n` line breaks consists of `n + 1`
/// styled lines and holds those `n` line breaks and no others, whatever the
/// text.
pub proof fn fragment_keeps_its_line_breaks(fragment: Fragment)
    ensures
        lines_of(fragment.text).len() == count_breaks(fragment.text) + 1,
        count_breaks(styled_fragment(fragment)) == count_breaks(fragment.text),
{
    lines_count(fragment.text);
    lines_join_back(fragment.text);
    styled_lines_keep_breaks(lines_of(fragment.text), fragment.color, fragment.attributes);
}

/// Rendered fragments hold the line breaks of their texts and no others,
/// whatever the texts.
pub proof fn message_keeps_its_line_breaks(fragments: Seq<Fragment>)
    ensures
        count_breaks(formatted(fragments)) == total_breaks(fragments),
    decreases fragments.len(),
{
    if fragments.len() > 0 {
        message_keeps_its_line_breaks(fragments.drop_last());
        fragment_keeps_its_line_breaks(fragments.last());
        breaks_add_up(formatted(fragments.drop_last()), styled_fragment(fragments.last()));
    }
}

/// Rendered fragments whose texts hold no line break hold no line break,
/// whatever else the texts hold.
pub proof fn unbroken_message_holds_no_line_break(fragments: Seq<Fragment>)
    requires
        forall|i: int|
            0 <= i < fragments.len() ==> !(#[trigger] fragments[i]).text.contains(LINE_BREAK),
    ensures
        !formatted(fragments).contains(LINE_BREAK),
{
    message_keeps_its_line_breaks(fragments);
    unbroken_fragments_hold_no_break(fragments);
    no_break_means_none_contained(formatted(fragments));
}

/// A styled line whose text holds no reset sequence holds exactly one, at
/// its end.
pub proof fn styled_line_is_one_segment(line: Seq<char>, color: Color, attributes: Seq<Attribute>)
    requires
        occurrences(line, reset_code()) == 0,
    ensures
        occurrences(styled_line(line, color, attributes), reset_code()) == 1,
        settled(styled_line(line, color, attributes)),
        styled_line(line, color, attributes).len() >= 8,
        styled_line(line, color, attributes)[0] == ESCAPE,
{
    let opening = line_opening(color, attributes);
    opening_is_quiet(color, attributes);
    reset_is_one_reset();
    reset_joins_after_settled(opening, line);
    occurrences_add_up(opening, line, reset_code());
    reset_joins_before_escape(opening + line, reset_code());
    occurrences_add_up(opening + line, reset_code(), reset_code());
    settled_by_end(opening + line, reset_code());
}

/// Styled lines whose texts hold no reset sequence hold one reset sequence
/// per line.
pub proof fn styled_lines_are_segments(
    lines: Seq<Seq<char>>,
    color: Color,
    attributes: Seq<Attribute>,
)
    requires
        forall|k: int| 0 <= k < lines.len() ==> occurrences(#[trigger] lines[k], reset_code()) == 0,
    ensures
        occurrences(styled_lines(lines, color, attributes), reset_code()) == lines.len(),
        settled(styled_lines(lines, color, attributes)),
    decreases lines.len(),
{
    if lines.len() == 1 {
        styled_line_is_one_segment(lines[0], color, attributes);
    } else if lines.len() > 1 {
        let before = styled_lines(lines.drop_last(), color, attributes);
        let last = styled_line(lines.last(), color, attributes);
        let break_text = seq![LINE_BREAK];
        assert forall|k: int| 0 <= k < lines.drop_last().len() implies occurrences(
            #[trigger] lines.drop_last()[k],
            reset_code(),
        ) == 0 by {
            assert(lines.drop_last()[k] == lines[k]);
        }
        styled_lines_are_segments(lines.drop_last(), color, attributes);
        styled_line_is_one_segment(lines.last(), color, attributes);
        reset_joins_after_settled(before, break_text);
        occurrences_add_up(before, break_text, reset_code());
        assert(occurrences(break_text, reset_code()) == 0) by {
            reveal_with_fuel(crate::text::occurrences_below, 2);
        }
        reset_joins_before_escape(before + break_text, last);
        occurrences_add_up(before + break_text, last, reset_code());
        settled_by_end(before + break_text, last);
    } else {
        assert(occurrences(Seq::<char>::empty(), reset_code()) == 0);
    }
}

/// A rendered fragment whose text holds `n` line breaks and no reset
/// sequence holds `n + 1` reset sequences, one at the end of each of its
/// styled lines.
pub proof fn fragment_has_a_segment_per_line(fragment: Fragment)
    requires
        occurrences(fragment.text, reset_code()) == 0,
    ensures
        lines_of(fragment.text).len() == count_breaks(fragment.text) + 1,
        occurrences(styled_fragment(fragment), reset_code()) == count_breaks(fragment.text) + 1,
        settled(styled_fragment(fragment)),
{
    reset_is_one_reset();
    lines_count(fragment.text);
    lines_hold_no_occurrence(fragment.text, reset_code());
    styled_lines_are_segments(lines_of(fragment.text), fragment.color, fragment.attributes);
}

/// Rendered fragments whose texts hold no reset sequence hold one reset
/// sequence for every line of every fragment.
pub proof fn message_has_a_segment_per_line(fragments: Seq<Fragment>)
    requires
        forall|i: int|
            0 <= i < fragments.len() ==> occurrences((#[trigger] fragments[i]).text, reset_code())
                == 0,
    ensures
        occurrences(formatted(fragments), reset_code()) == fragments.len() + total_breaks(
            fragments,
        ),
        settled(formatted(fragments)),
    decreases fragments.len(),
{
    if fragments.len() > 0 {
        let before = formatted(fragments.drop_last());
        let last = styled_fragment(fragments.last());
        assert forall|i: int| 0 <= i < fragments.drop_last().len() implies occurrences(
            (#[trigger] fragments.drop_last()[i]).text,
            reset_code(),
        ) == 0 by {
            assert(fragments.drop_last()[i] == fragments[i]);
        }
        message_has_a_segment_per_line(fragments.drop_last());
        fragment_has_a_segment_per_line(fragments.last());
        reset_is_one_reset();
        reset_joins_after_settled(before, last);
        occurrences_add_up(before, last, reset_code());
        crate::escape::settled_joined(before, last);
    } else {
        assert(occurrences(Seq::<char>::empty(), reset_code()) == 0);
    }
}

/// A fragment whose text holds no line break renders to a single styled
/// line.
pub proof fn unbroken_fragment_is_one_styled_line(fragment: Fragment)
    requires
        !fragment.text.contains(LINE_BREAK),
    ensures
        styled_fragment(fragment) == styled_line(
            fragment.text,
            fragment.color,
            fragment.attributes,
        ),
{
    no_break_means_none_contained(fragment.text);
    unbroken_text_is_one_line(fragment.text);
}

/// Rendered fragments whose texts hold neither a line break nor a reset
/// sequence hold exactly one reset sequence per fragment.
pub proof fn unbroken_message_has_a_reset_per_fragment(fragments: Seq<Fragment>)
    requires
        forall|i: int|
            0 <= i < fragments.len() ==> !(#[trigger] fragments[i]).text.contains(LINE_BREAK),
        forall|i: int|
            0 <= i < fragments.len() ==> occurrences((#[trigger] fragments[i]).text, reset_code())
                == 0,
    ensures
        occurrences(formatted(fragments), reset_code()) == fragments.len(),
{
    message_has_a_segment_per_line(fragments);
    unbroken_fragments_hold_no_break(fragments);
}

proof fn unbroken_fragments_hold_no_break(fragments: Seq<Fragment>)
    requires
        forall|i: int|
            0 <= i < fragments.len() ==> !(#[trigger] fragments[i]).text.contains(LINE_BREAK),
    ensures
        total_breaks(fragments) == 0,
    decreases fragments.len(),
{
    if fragments.len() > 0 {
        assert forall|i: int| 0 <= i < fragments.drop_last().len() implies !(
        #[trigger] fragments.drop_last()[i]).text.contains(LINE_BREAK) by {
            assert(fragments.drop_last()[i] == fragments[i]);
        }
        unbroken_fragments_hold_no_break(fragments.drop_last());
        assert(fragments.last() == fragments[fragments.len() - 1]);
        no_break_means_none_contained(fragments.last().text);
    }
}

/// An empty list of fragments renders to the empty text, and framing the
/// empty text leaves the background, the reset and the line end.
pub proof fn nothing_renders_to_the_frame(mode: PrintMode)
    ensures
        formatted(Seq::<Fragment>::empty()) == Seq::<char>::empty(),
        framed(formatted(Seq::<Fragment>::empty()), mode) == background_code(BACK) + reset_code()
            + line_end(mode),
{
    assert(background_code(BACK) + Seq::<char>::empty() == background_code(BACK));
}

} // verus!

use termstyle::color::{Attribute, Color, BLUE, BOLD, GREEN, ITALIC, RED, UNDERLINED};
use termstyle::escape::{background, foreground};
use termstyle::format::{
    color_fragments, end_line, format_message, frame, open_line, render_colored, render_fancy,
    render_formatted, PrintMode,
};
use termstyle::text::split_lines;

const BG: &str = "\x1b[48;2;7;54;66m";
const RESET: &str = "\x1b[0m";

fn count(haystack: &str, needle: &str) -> usize {
    haystack.matches(needle).count()
}

#[test]
fn foreground_of_rgb_is_the_truecolor_sequence() {
    assert_eq!(foreground(Color::Rgb { r: 1, g: 20, b: 255 }), "\x1b[38;2;1;20;255m");
    assert_eq!(foreground(Color::Rgb { r: 0, g: 0, b: 0 }), "\x1b[38;2;0;0;0m");
    assert_eq!(foreground(Color::Rgb { r: 100, g: 10, b: 9 }), "\x1b[38;2;100;10;9m");
}

#[test]
fn background_of_rgb_is_the_truecolor_sequence() {
    assert_eq!(background(Color::Rgb { r: 1, g: 20, b: 255 }), "\x1b[48;2;1;20;255m");
    assert_eq!(background(Color::Rgb { r: 200, g: 99, b: 0 }), "\x1b[48;2;200;99;0m");
}

#[test]
fn palette_colors_render_by_their_channels() {
    assert_eq!(background(Color::Back), BG);
    assert_eq!(foreground(RED), "\x1b[38;2;211;1;2m");
    assert_eq!(foreground(BLUE), "\x1b[38;2;38;139;210m");
    assert_eq!(foreground(GREEN), foreground(Color::Rgb { r: 133, g: 153, b: 0 }));
}

#[test]
fn open_line_puts_background_then_foreground_then_attributes() {
    assert_eq!(open_line(RED, &vec![]), format!("{}{}", BG, "\x1b[38;2;211;1;2m"));
    assert_eq!(
        open_line(RED, &vec![BOLD, UNDERLINED, ITALIC]),
        format!("{}{}{}", BG, "\x1b[38;2;211;1;2m", "\x1b[1m\x1b[4m\x1b[3m")
    );
    assert_eq!(
        open_line(BLUE, &vec![Attribute::Italic, Attribute::Italic]),
        format!("{}{}{}", BG, "\x1b[38;2;38;139;210m", "\x1b[3m\x1b[3m")
    );
}

#[test]
fn split_lines_cuts_at_every_line_break() {
    assert_eq!(split_lines(""), vec![String::new()]);
    assert_eq!(split_lines("abc"), vec!["abc".to_string()]);
    assert_eq!(split_lines("a\nb"), vec!["a".to_string(), "b".to_string()]);
    assert_eq!(split_lines("a\n"), vec!["a".to_string(), String::new()]);
    assert_eq!(split_lines("\n\nx"), vec![String::new(), String::new(), "x".to_string()]);
    assert_eq!(split_lines("é\nü"), vec!["é".to_string(), "ü".to_string()]);
}

#[test]
fn format_of_no_fragment_is_empty() {
    assert_eq!(format_message(&[]), "");
}

#[test]
fn format_of_one_plain_fragment() {
    let formatted = format_message(&[("hi", RED, vec![])]);
    assert_eq!(formatted, format!("{}\x1b[38;2;211;1;2mhi{}", BG, RESET));
}

#[test]
fn format_with_attributes() {
    let formatted = format_message(&[("hi", BLUE, vec![BOLD, ITALIC])]);
    assert_eq!(formatted, format!("{}\x1b[38;2;38;139;210m\x1b[1m\x1b[3mhi{}", BG, RESET));
}

#[test]
fn format_of_empty_text_is_one_empty_segment() {
    let formatted = format_message(&[("", RED, vec![])]);
    assert_eq!(formatted, format!("{}\x1b[38;2;211;1;2m{}", BG, RESET));
}

#[test]
fn format_reopens_styling_after_every_line_break() {
    let open = format!("{}\x1b[38;2;211;1;2m\x1b[4m", BG);
    let formatted = format_message(&[("one\ntwo\n", RED, vec![UNDERLINED])]);
    assert_eq!(
        formatted,
        format!("{o}one{r}\n{o}two{r}\n{o}{r}", o = open, r = RESET)
    );
}

#[test]
fn format_joins_fragments_without_separator() {
    let formatted = format_message(&[("a", RED, vec![]), ("b", BLUE, vec![BOLD])]);
    assert_eq!(
        formatted,
        format!(
            "{bg}\x1b[38;2;211;1;2ma{r}{bg}\x1b[38;2;38;139;210m\x1b[1mb{r}",
            bg = BG,
            r = RESET
        )
    );
}

#[test]
fn unbroken_fragments_give_one_reset_each_and_no_line_break() {
    let fragments = [("alpha", RED, vec![BOLD]), ("", BLUE, vec![]), ("gamma delta", GREEN, vec![ITALIC])];
    let formatted = format_message(&fragments);
    assert_eq!(count(&formatted, RESET), 3);
    assert!(!formatted.contains('\n'));
}

#[test]
fn fragment_with_n_line_breaks_gives_n_plus_one_segments() {
    let formatted = format_message(&[("a\nbb\n\nccc", RED, vec![BOLD])]);
    let open = format!("{}\x1b[38;2;211;1;2m\x1b[1m", BG);
    assert_eq!(count(&formatted, RESET), 4);
    assert_eq!(count(&formatted, &open), 4);
    assert_eq!(count(&formatted, "\n"), 3);
    for segment in formatted.split('\n') {
        assert!(segment.starts_with(&open));
        assert!(segment.ends_with(RESET));
    }
}

#[test]
fn end_line_appends_a_line_break_only_in_new_line_mode() {
    assert_eq!(end_line("x".to_string(), PrintMode::NewLine), "x\n");
    assert_eq!(end_line("x".to_string(), PrintMode::SameLine), "x");
    assert_eq!(end_line(String::new(), PrintMode::NewLine), "\n");
}

#[test]
fn frame_wraps_in_background_and_reset() {
    assert_eq!(frame("body", PrintMode::NewLine), format!("{}body{}\n", BG, RESET));
    assert_eq!(frame("body", PrintMode::SameLine), format!("{}body{}", BG, RESET));
}

#[test]
fn rendering_no_fragment_leaves_only_the_frame() {
    assert_eq!(render_formatted(&[], PrintMode::NewLine), format!("{}{}\n", BG, RESET));
    assert_eq!(render_formatted(&[], PrintMode::SameLine), format!("{}{}", BG, RESET));
    assert_eq!(render_fancy(&[], PrintMode::NewLine), format!("{}{}\n", BG, RESET));
    assert_eq!(render_colored(&[], &[], PrintMode::SameLine), format!("{}{}", BG, RESET));
}

#[test]
fn render_fancy_frames_the_formatted_fragments() {
    let fragments = [("a\nb", RED, vec![BOLD]), ("c", BLUE, vec![])];
    let body = format_message(&fragments);
    assert_eq!(render_fancy(&fragments, PrintMode::NewLine), format!("{}{}{}\n", BG, body, RESET));
    assert_eq!(render_fancy(&fragments, PrintMode::SameLine), format!("{}{}{}", BG, body, RESET));
    assert_eq!(
        render_formatted(&fragments, PrintMode::NewLine),
        render_fancy(&fragments, PrintMode::NewLine)
    );
}

#[test]
fn color_fragments_takes_the_colors_in_turn() {
    let fragments = color_fragments(&["a", "b", "c", "d", "e"], &[RED, BLUE]);
    assert_eq!(
        fragments,
        vec![
            ("a", RED, vec![]),
            ("b", BLUE, vec![]),
            ("c", RED, vec![]),
            ("d", BLUE, vec![]),
            ("e", RED, vec![]),
        ]
    );
    assert_eq!(color_fragments(&[], &[]), vec![]);
    assert_eq!(color_fragments(&["x"], &[GREEN, RED]), vec![("x", GREEN, vec![])]);
}

#[test]
fn render_colored_cycles_through_the_colors() {
    let text = render_colored(&["a", "b", "c"], &[RED, BLUE], PrintMode::NewLine);
    let red = "\x1b[38;2;211;1;2m";
    let blue = "\x1b[38;2;38;139;210m";
    assert_eq!(
        text,
        format!(
            "{bg}{bg}{red}a{r}{bg}{blue}b{r}{bg}{red}c{r}{r}\n",
            bg = BG,
            red = red,
            blue = blue,
            r = RESET
        )
    );
}

#[test]
fn reset_sequence_inside_a_text_is_one_more_reset() {
    let formatted = format_message(&[("a\x1b[0mb", RED, vec![])]);
    assert_eq!(count(&formatted, RESET), 2);
}

#[test]
fn line_breaks_of_the_texts_are_kept_whatever_the_texts_hold() {
    let unbroken = format_message(&[("a\x1b[0mb", RED, vec![BOLD]), ("\x1b", BLUE, vec![])]);
    assert!(!unbroken.contains('\n'));
    let broken = format_message(&[("a\x1b[0m\nb\n", RED, vec![]), ("c\nd", BLUE, vec![ITALIC])]);
    assert_eq!(count(&broken, "\n"), 3);
}

use termstyle::color::{
    next_channel, next_color, Attribute, Color, BACK, BLUE, BOLD, COLOR_STEP, CYAN, GREEN, GREY, ITALIC,
    MAGENTA, ORANGE, RED, UNDERLINED, VIOLET, WHITE, YELLOW,
};

#[test]
fn palette_channels() {
    assert_eq!(BACK.rgb(), (7, 54, 66));
    assert_eq!(VIOLET.rgb(), (108, 113, 196));
    assert_eq!(BLUE.rgb(), (38, 139, 210));
    assert_eq!(CYAN.rgb(), (42, 161, 152));
    assert_eq!(GREEN.rgb(), (133, 153, 0));
    assert_eq!(YELLOW.rgb(), (181, 137, 0));
    assert_eq!(ORANGE.rgb(), (203, 75, 22));
    assert_eq!(RED.rgb(), (211, 1, 2));
    assert_eq!(MAGENTA.rgb(), (211, 54, 130));
    assert_eq!(WHITE.rgb(), (147, 161, 161));
    assert_eq!(GREY.rgb(), (88, 110, 117));
    assert_eq!(Color::Rgb { r: 1, g: 2, b: 3 }.rgb(), (1, 2, 3));
}

#[test]
fn attribute_constants_name_the_three_attributes() {
    assert_eq!(BOLD, Attribute::Bold);
    assert_eq!(UNDERLINED, Attribute::Underlined);
    assert_eq!(ITALIC, Attribute::Italic);
}

#[test]
fn next_color_adds_the_step_to_every_channel() {
    assert_eq!(COLOR_STEP, 10);
    assert_eq!(
        next_color(Color::Rgb { r: 0, g: 100, b: 244 }),
        Color::Rgb { r: 10, g: 110, b: 254 }
    );
    assert_eq!(next_color(RED), Color::Rgb { r: 221, g: 11, b: 12 });
}

#[test]
fn next_color_wraps_at_the_top() {
    assert_eq!(
        next_color(Color::Rgb { r: 245, g: 246, b: 250 }),
        Color::Rgb { r: 0, g: 1, b: 5 }
    );
    assert_eq!(
        next_color(Color::Rgb { r: 254, g: 255, b: 249 }),
        Color::Rgb { r: 9, g: 10, b: 4 }
    );
}

#[test]
fn next_color_never_reaches_the_bound() {
    for c in 0..=255u8 {
        let (r, g, b) = next_color(Color::Rgb { r: c, g: c, b: c }).rgb();
        assert!(r < 255 && g < 255 && b < 255);
        assert_eq!(r, ((c as u16 + 10) % 255) as u8);
        assert_eq!(next_channel(c), r);
    }
}

#[test]
fn next_channel_values() {
    assert_eq!(next_channel(0), 10);
    assert_eq!(next_channel(244), 254);
    assert_eq!(next_channel(245), 0);
    assert_eq!(next_channel(250), 5);
    assert_eq!(next_channel(255), 10);
}

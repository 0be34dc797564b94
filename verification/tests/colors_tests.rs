use etail_image_processor::colors::{colorscheme_slices_cleanly, default_colors};
use etail_image_processor::{colors_from_scheme, hex_or_default, parse_hex_color, Rgb};

fn rgb(red: u8, green: u8, blue: u8) -> Rgb {
    Rgb { red, green, blue }
}

#[test]
fn parses_hex_colors() {
    assert_eq!(parse_hex_color("#161320"), Some(rgb(22, 19, 32)));
    assert_eq!(parse_hex_color("  4D8EFA  (blue)"), Some(rgb(77, 142, 250)));
    assert_eq!(parse_hex_color("#abcdef"), Some(rgb(0xab, 0xcd, 0xef)));
    assert_eq!(parse_hex_color("+f+f+f"), Some(rgb(15, 15, 15)));
    assert_eq!(parse_hex_color("#12345"), None);
    assert_eq!(parse_hex_color("#1234567"), None);
    assert_eq!(parse_hex_color("#12g456"), None);
    assert_eq!(parse_hex_color(""), None);
    assert_eq!(parse_hex_color("##123456"), None);
}

#[test]
fn default_background_comes_from_its_hex_text() {
    assert_eq!(hex_or_default("#161320", rgb(0, 0, 0)), default_colors().background);
    assert_eq!(hex_or_default("nope", rgb(1, 2, 3)), rgb(1, 2, 3));
}

#[test]
fn scheme_sets_colors_and_keeps_defaults() {
    let defaults = default_colors();
    let text = "Dark base: #101010\nBlue: #0000ff\r\nGreen: zz\nUnknown: #123456\nBlue: #0000aa\nno colon here\n";
    assert!(colorscheme_slices_cleanly(text));
    let scheme = colors_from_scheme(text);
    assert_eq!(scheme.background, rgb(16, 16, 16));
    assert_eq!(scheme.primary, rgb(0, 0, 0xaa));
    assert_eq!(scheme.success, defaults.success);
    assert_eq!(scheme.warning, defaults.warning);
    assert_eq!(scheme.danger, defaults.danger);
    assert_eq!(scheme.text, rgb(255, 255, 255));
}

#[test]
fn main_text_dark_wins_over_dark_base() {
    let scheme = colors_from_scheme("Main text dark: #222222\nDark base: #111111");
    assert_eq!(scheme.background, rgb(0x22, 0x22, 0x22));
}

#[test]
fn empty_scheme_gives_defaults() {
    assert_eq!(colors_from_scheme(""), default_colors());
    assert_eq!(default_colors().background, rgb(22, 19, 32));
}

#[test]
fn values_cut_inside_a_character_are_flagged() {
    assert!(!colorscheme_slices_cleanly("Blue: a\u{e9}bcd\n"));
    assert!(colorscheme_slices_cleanly("Blue: \u{e9}\u{e9}\u{e9}\n"));
}

#[test]
fn a_first_pair_that_is_no_number_is_never_cut_further() {
    // "zz1é2": the first pair is cut cleanly and is no number, so the rest is never cut.
    let text = "Blue: zz1\u{e9}2\n";
    assert!(colorscheme_slices_cleanly(text));
    assert_eq!(colors_from_scheme(text).primary, default_colors().primary);
    // A number in the first pair leads to a cut inside `é`.
    assert!(!colorscheme_slices_cleanly("Blue: 12a\u{e9}3\n"));
    assert!(colorscheme_slices_cleanly("Blue: zza\u{e9}3\n"));
    assert!(colorscheme_slices_cleanly("Blue: 12\u{e9}34\n"));
    assert_eq!(colors_from_scheme("Blue: 12\u{e9}34\n").primary, default_colors().primary);
}

#[test]
fn an_invalid_line_never_clears_an_earlier_color() {
    let scheme = colors_from_scheme("Blue: #102030\nBlue: oops");
    assert_eq!(scheme.primary, rgb(16, 32, 48));
}

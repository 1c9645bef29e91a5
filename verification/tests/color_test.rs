use owo_colors::OwoColorize;
use papergrid::strings::cut_str;
use papergrid::strings::string_width;
use papergrid::strings::string_width_multiline;

#[test]
fn colored_string_width_test() {
    assert_eq!(string_width(&"hello world".red().to_string()), 11);
    assert_eq!(
        string_width_multiline(&"hello\nworld".blue().to_string()),
        5
    );
    assert_eq!(string_width("\u{1b}[34m0\u{1b}[0m"), 1);
    assert_eq!(string_width(&"0".red().to_string()), 1);
}

#[test]
fn strip_color_test() {
    let numbers = "123456".red().on_bright_black().to_string();

    assert_eq!(cut_str(&numbers, 0), "\u{1b}[31;100m\u{1b}[39m\u{1b}[49m");
    assert_eq!(
        cut_str(&numbers, 3),
        "\u{1b}[31;100m123\u{1b}[39m\u{1b}[49m"
    );
    assert_eq!(cut_str(&numbers, 10), "\u{1b}[31;100m123456\u{1b}[0m");

    let emojies = "😳😳😳😳😳".red().on_bright_black().to_string();

    assert_eq!(cut_str(&emojies, 0), "\u{1b}[31;100m\u{1b}[39m\u{1b}[49m");
    assert_eq!(
        cut_str(&emojies, 3),
        "\u{1b}[31;100m😳\u{1b}[39m\u{1b}[49m�"
    );
    assert_eq!(
        cut_str(&emojies, 4),
        "\u{1b}[31;100m😳😳\u{1b}[39m\u{1b}[49m"
    );
    assert_eq!(cut_str(&emojies, 20), "\u{1b}[31;100m😳😳😳😳😳\u{1b}[0m");

    let emojies = "🏳️🏳️".red().on_bright_black().to_string();

    assert_eq!(cut_str(&emojies, 0), "\u{1b}[31;100m\u{1b}[39m\u{1b}[49m");
    assert_eq!(cut_str(&emojies, 1), "\u{1b}[31;100m🏳\u{1b}[39m\u{1b}[49m");
    assert_eq!(
        cut_str(&emojies, 2),
        "\u{1b}[31;100m🏳\u{fe0f}🏳\u{fe0f}\u{1b}[0m"
    );
    assert_eq!(
        string_width(&emojies),
        string_width("\u{1b}[31;100m🏳\u{fe0f}🏳\u{1b}[39m\u{1b}[49m")
    );
}

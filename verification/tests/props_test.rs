use papergrid::strings::checked_string_width_tab;
use papergrid::strings::cut_str;
use papergrid::strings::get_lines;
use papergrid::strings::replace_tab;
use papergrid::strings::string_trim;
use papergrid::strings::string_width;
use papergrid::strings::string_width_multiline_tab;
use papergrid::strings::string_width_tab;

#[test]
fn cut_width_is_exact_test() {
    let s = "ab😳cd";
    for w in 0..=string_width(s) {
        assert_eq!(string_width(&cut_str(s, w)), w);
    }
}

#[test]
fn cut_wide_enough_keeps_all_test() {
    let s = "ab😳cd";
    assert_eq!(string_width(s), 6);
    assert_eq!(cut_str(s, 6), s);
    assert_eq!(cut_str(s, 7), s);
    assert_eq!(cut_str(s, 100), s);
}

#[test]
fn cut_zero_keeps_tail_reset_test() {
    let s = "\u{1b}[31mabc\u{1b}[39m";
    let r = cut_str(s, 0);
    assert_eq!(r, "\u{1b}[31m\u{1b}[39m");
    assert_eq!(string_width(&r), 0);
}

#[test]
fn tab_width_matches_expansion_test() {
    for n in 0..6 {
        let s = "a\tb\t\\\tc";
        assert_eq!(string_width_tab(s, n), string_width(&replace_tab(s, n)));
    }
}

#[test]
fn tab_width_matches_expansion_colored_test() {
    let s = "\u{1b}[31ma\tb\u{1b}[0m";
    for n in 0..6 {
        assert_eq!(string_width_tab(s, n), string_width(&replace_tab(s, n)));
    }
}

#[test]
fn width_tab_test() {
    assert_eq!(string_width_tab("a\tb", 4), 6);
    assert_eq!(string_width_tab("no tabs", 4), 7);
    assert_eq!(checked_string_width_tab("a\tb", 4), Some(6));
    assert_eq!(string_width_multiline_tab("a\tb\nlonger", 4), 6);
    assert_eq!(string_width_multiline_tab("a\tb\nxy", 1), 3);
}

#[test]
fn trim_colored_test() {
    assert_eq!(
        string_trim("\u{1b}[31m  x\u{1b}[0m"),
        "\u{1b}[31mx\u{1b}[0m"
    );
    assert_eq!(
        string_trim("\u{1b}[31mab \u{1b}[0m"),
        "\u{1b}[31mab\u{1b}[0m"
    );
}

#[test]
fn get_lines_colored_test() {
    assert_eq!(
        get_lines("\u{1b}[31ma\nb\u{1b}[0m"),
        vec![
            "\u{1b}[31ma\u{1b}[39m".to_string(),
            "\u{1b}[31mb\u{1b}[0m".to_string(),
        ]
    );
}

#[test]
fn escape_transparent_ops_match_plain_test() {
    let s = "  plain ascii text  ";
    assert_eq!(string_trim(s), s.trim());
    assert_eq!(cut_str(s, 7), &s[..7]);
    let lines = "a\nbb\nccc";
    let split: Vec<String> = lines.split('\n').map(|p| p.to_string()).collect();
    assert_eq!(get_lines(lines), split);
}

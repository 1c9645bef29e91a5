use papergrid::strings::count_lines;
use papergrid::strings::count_tabs;
use papergrid::strings::cut_str;
use papergrid::strings::get_lines;
use papergrid::strings::replace_tab;
use papergrid::strings::string_split_at_length;
use papergrid::strings::string_trim;
use papergrid::strings::string_width;
use papergrid::strings::string_width_multiline;

#[test]
fn replace_tab_test() {
    assert_eq!(replace_tab("123\t\tabc\t", 3), "123      abc   ");

    assert_eq!(replace_tab("\t", 0), "");
    assert_eq!(replace_tab("\t", 3), "   ");
    assert_eq!(replace_tab("123\tabc", 3), "123   abc");
    assert_eq!(replace_tab("123\tabc\tzxc", 0), "123abczxc");

    assert_eq!(replace_tab("\\t", 0), "\\t");
    assert_eq!(replace_tab("\\t", 4), "\\t");
    assert_eq!(replace_tab("123\\tabc", 0), "123\\tabc");
    assert_eq!(replace_tab("123\\tabc", 4), "123\\tabc");
}

#[test]
fn string_width_emojie_test() {
    assert_eq!(string_width("🎩"), 2);
    assert_eq!(string_width("Rust 💕"), 7);
    assert_eq!(string_width_multiline("Go 👍\nC 😎"), 5);
}

#[test]
fn strip_test() {
    assert_eq!(cut_str("123456", 0), "");
    assert_eq!(cut_str("123456", 3), "123");
    assert_eq!(cut_str("123456", 10), "123456");

    assert_eq!(cut_str("a week ago", 4), "a we");

    assert_eq!(cut_str("😳😳😳😳😳", 0), "");
    assert_eq!(cut_str("😳😳😳😳😳", 3), "😳�");
    assert_eq!(cut_str("😳😳😳😳😳", 4), "😳😳");
    assert_eq!(cut_str("😳😳😳😳😳", 20), "😳😳😳😳😳");

    assert_eq!(cut_str("🏳️🏳️", 0), "");
    assert_eq!(cut_str("🏳️🏳️", 1), "🏳");
    assert_eq!(cut_str("🏳️🏳️", 2), "🏳\u{fe0f}🏳\u{fe0f}");
    assert_eq!(string_width("🏳️🏳️"), string_width("🏳\u{fe0f}🏳"));

    assert_eq!(cut_str("🎓", 1), "�");
    assert_eq!(cut_str("🎓", 2), "🎓");

    assert_eq!(cut_str("🥿", 1), "�");
    assert_eq!(cut_str("🥿", 2), "🥿");

    assert_eq!(cut_str("🩰", 1), "�");
    assert_eq!(cut_str("🩰", 2), "🩰");

    assert_eq!(cut_str("👍🏿", 1), "�");
    assert_eq!(cut_str("👍🏿", 2), "👍");
    assert_eq!(cut_str("👍🏿", 3), "👍�");
    assert_eq!(cut_str("👍🏿", 4), "👍🏿");

    assert_eq!(cut_str("🇻🇬", 1), "🇻");
    assert_eq!(cut_str("🇻🇬", 2), "🇻🇬");
    assert_eq!(cut_str("🇻🇬", 3), "🇻🇬");
    assert_eq!(cut_str("🇻🇬", 4), "🇻🇬");
}

#[test]
fn count_lines_test() {
    assert_eq!(
        count_lines("\u{1b}[37mnow is the time for all good men\n\u{1b}[0m"),
        2
    );
    assert_eq!(count_lines("now is the time for all good men\n"), 2);
}

#[test]
fn count_lines_edges_test() {
    assert_eq!(count_lines(""), 1);
    assert_eq!(count_lines("a\nb\n"), 3);
}

#[test]
fn string_trim_test() {
    assert_eq!(string_trim("  hello world  "), "hello world");
    assert_eq!(string_trim("\t text \n"), "text");
    assert_eq!(string_trim("   "), "");
    assert_eq!(string_trim("plain"), "plain");
}

#[test]
fn get_lines_test() {
    assert_eq!(get_lines("a\nb"), vec!["a".to_string(), "b".to_string()]);
    assert_eq!(get_lines(""), vec!["".to_string()]);
    assert_eq!(
        get_lines("x\n\ny"),
        vec!["x".to_string(), "".to_string(), "y".to_string()]
    );
    assert_eq!(get_lines("a\n"), vec!["a".to_string(), "".to_string()]);
}

#[test]
fn string_split_at_length_test() {
    assert_eq!(string_split_at_length("123456", 3), (3, 0, 0));
    assert_eq!(string_split_at_length("123456", 10), (6, 0, 0));
    assert_eq!(string_split_at_length("😳😳", 3), (4, 1, 4));
    assert_eq!(string_split_at_length("😳😳", 4), (8, 0, 0));
    assert_eq!(string_split_at_length("", 2), (0, 0, 0));
}

#[test]
fn count_tabs_test() {
    assert_eq!(count_tabs("a\tb\tc"), 2);
    assert_eq!(count_tabs("\\\tb"), 0);
    assert_eq!(count_tabs("\t\\\t\t"), 2);
    assert_eq!(count_tabs("none"), 0);
}

use rvab::names::{blank, chars_of, parse_name_list, trimmed_name};

#[test]
fn names_are_read_one_to_a_line() {
    assert_eq!(parse_name_list("boot\nvendor\nsystem\n"), vec!["boot", "vendor", "system"]);
    assert_eq!(parse_name_list("boot\nvendor"), vec!["boot", "vendor"]);
    assert_eq!(parse_name_list("boot"), vec!["boot"]);
}

#[test]
fn blanks_and_empty_lines_do_not_count() {
    assert_eq!(parse_name_list("  boot \r\n\n\t\n vendor_a\t\r\n   \n"), vec!["boot", "vendor_a"]);
    assert_eq!(parse_name_list(""), Vec::<String>::new());
    assert_eq!(parse_name_list("\n\n \n"), Vec::<String>::new());
    assert_eq!(parse_name_list("two words\n"), vec!["two words"]);
    assert_eq!(parse_name_list("\u{3000}größe\u{a0}\n\u{2003}x"), vec!["größe", "x"]);
}

#[test]
fn name_lists_agree_with_lines_and_trim() {
    for text in ["a\nb\n", " a \n\n b", "\r\na\r\n", "x\u{85}\ny", "\u{200b}z\n", "a\u{b}\n\u{c}b\u{1680}"] {
        let expected: Vec<String> =
            text.lines().map(|l| l.trim()).filter(|l| !l.is_empty()).map(|l| l.to_string()).collect();
        assert_eq!(parse_name_list(text), expected, "text {:?}", text);
    }
}

#[test]
fn blank_characters_are_those_of_unicode() {
    for code in 0u32..0x3100 {
        if let Some(c) = char::from_u32(code) {
            assert_eq!(blank(c), c.is_whitespace(), "character {:#x}", code);
        }
    }
}

#[test]
fn characters_and_trimmed_ranges() {
    let chars = chars_of(" héllo ");
    assert_eq!(chars, vec![' ', 'h', 'é', 'l', 'l', 'o', ' ']);
    assert_eq!(trimmed_name(&chars, 0, 7), "héllo");
    assert_eq!(trimmed_name(&chars, 2, 4), "él");
    assert_eq!(trimmed_name(&chars, 6, 7), "");
    assert_eq!(trimmed_name(&chars, 3, 3), "");
}

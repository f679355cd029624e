use wallpicker::command::{command_word, is_affirmative, parse_command, Command};
use wallpicker::text::{chars_of, decimal_string, is_space, read_index, trim_text};

#[test]
fn decimal_numerals() {
    assert_eq!(decimal_string(0), "0");
    assert_eq!(decimal_string(7), "7");
    assert_eq!(decimal_string(10), "10");
    assert_eq!(decimal_string(1920), "1920");
    assert_eq!(decimal_string(18446744073709551615), "18446744073709551615");
    assert_eq!(
        decimal_string(u128::MAX),
        "340282366920938463463374607431768211455"
    );
}

#[test]
fn white_space_is_what_the_standard_library_calls_so() {
    let mut code: u32 = 0;
    while code <= 0x10ffff {
        if let Some(c) = char::from_u32(code) {
            assert_eq!(is_space(c), c.is_whitespace(), "code point {:x}", code);
        }
        code += 1;
    }
}

#[test]
fn characters_of_a_string() {
    assert_eq!(chars_of("a\u{e9}\u{4e16}"), vec!['a', '\u{e9}', '\u{4e16}']);
    assert_eq!(chars_of(""), Vec::<char>::new());
}

fn read(s: &str) -> Option<usize> {
    let chars = chars_of(s);
    read_index(&chars, 0, chars.len())
}

#[test]
fn numerals_are_read_as_the_standard_library_reads_them() {
    let samples = [
        "", "0", "1", "42", "007", "+", "+5", "++5", "-5", "-0", "5+", "1 ", " 1", "1a", "a",
        "18446744073709551615", "18446744073709551616", "99999999999999999999999", "+0",
        "\u{661}", "1_000", "0x10",
    ];
    for s in samples {
        assert_eq!(read(s), s.parse::<usize>().ok(), "numeral {:?}", s);
    }
    assert_eq!(read("12"), Some(12));
    assert_eq!(read("+12"), Some(12));
    assert_eq!(read("x"), None);
}

#[test]
fn a_numeral_inside_a_line() {
    let chars = chars_of("k 31 x");
    assert_eq!(read_index(&chars, 2, 4), Some(31));
    assert_eq!(read_index(&chars, 2, 3), Some(3));
    assert_eq!(read_index(&chars, 2, 2), None);
    assert_eq!(read_index(&chars, 1, 4), None);
}

#[test]
fn the_six_commands() {
    assert_eq!(parse_command("k 2"), Command::Keep(Some(2)));
    assert_eq!(parse_command("kn"), Command::KeepNewest);
    assert_eq!(parse_command("ko"), Command::KeepOldest);
    assert_eq!(parse_command("p 1"), Command::Preview(Some(1)));
    assert_eq!(parse_command("s"), Command::Skip);
    assert_eq!(parse_command("q"), Command::Quit);
}

#[test]
fn commands_with_white_space_and_more_words() {
    assert_eq!(parse_command("  k   3  \n"), Command::Keep(Some(3)));
    assert_eq!(parse_command("\tq\r\n"), Command::Quit);
    assert_eq!(parse_command("k 1 2"), Command::Keep(Some(1)));
    assert_eq!(parse_command("q now"), Command::Quit);
    assert_eq!(parse_command("k\u{a0}4"), Command::Keep(Some(4)));
    assert_eq!(parse_command("k +4"), Command::Keep(Some(4)));
    assert_eq!(parse_command("k 0"), Command::Keep(Some(0)));
}

#[test]
fn malformed_commands() {
    assert_eq!(parse_command(""), Command::Blank);
    assert_eq!(parse_command("   \n"), Command::Blank);
    assert_eq!(parse_command("k"), Command::Keep(None));
    assert_eq!(parse_command("k x"), Command::Keep(None));
    assert_eq!(parse_command("k -1"), Command::Keep(None));
    assert_eq!(parse_command("p"), Command::Preview(None));
    assert_eq!(parse_command("p 99999999999999999999999"), Command::Preview(None));
    assert_eq!(parse_command("K 1"), Command::Unknown);
    assert_eq!(parse_command("KN"), Command::Unknown);
    assert_eq!(parse_command("k1"), Command::Unknown);
    assert_eq!(parse_command("keep 1"), Command::Unknown);
    assert_eq!(parse_command("x"), Command::Unknown);
    assert_eq!(parse_command("kp"), Command::Unknown);
}

#[test]
fn the_word_of_an_unknown_command() {
    assert_eq!(command_word("  frob 1\n"), "frob");
    assert_eq!(command_word(""), "");
    assert_eq!(command_word("d\u{e9}j\u{e0} vu"), "d\u{e9}j\u{e0}");
}

#[test]
fn answers_that_confirm() {
    for yes in ["y", "Y", "yes", "YES", "Yes", "yEs", " y\n", "\tyes  "] {
        assert!(is_affirmative(yes), "{:?}", yes);
    }
    for no in ["", "n", "no", "ye", "yess", "y es", "yes!", "\u{ff59}", "9", "yy"] {
        assert!(!is_affirmative(no), "{:?}", no);
    }
}

#[test]
fn answers_confirm_as_in_lower_case() {
    let samples = ["y", "Y", "yes", "YeS", "no", "", " yes ", "yes yes", "Y\n", "ok", "YE", "YES\t"];
    for s in samples {
        let lowered = s.trim().to_lowercase();
        assert_eq!(is_affirmative(s), lowered == "y" || lowered == "yes", "{:?}", s);
    }
}

#[test]
fn text_without_the_white_space_around_it() {
    for s in ["", "  ", " a ", "a b", "\t a  b \n", "\u{3000}x\u{a0}", "x"] {
        assert_eq!(trim_text(s), s.trim(), "{:?}", s);
    }
}

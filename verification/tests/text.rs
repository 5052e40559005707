use postio_ui::text::{contains_text, decimal_of, is_blank, is_control, is_white_space, read_number};
use postio_ui::text::{same_ignoring_case, signed_decimal_of, split_lines, split_once, split_words, trim};
use postio_ui::text::{trim_end, wide_decimal_of, width_of};

#[test]
fn white_space_control_and_width_are_what_they_are_everywhere() {
    for c in '\0'..=char::MAX {
        assert_eq!(is_white_space(c), c.is_whitespace(), "{c:?}");
        assert_eq!(is_control(c), c.is_control(), "{c:?}");
        assert_eq!(width_of(c), c.len_utf8(), "{c:?}");
    }
}

#[test]
fn trimming_takes_white_space_from_the_ends() {
    for text in ["", "  ", " a b ", "\u{2003}é\u{2003}", "a", "\t\r\n x"] {
        assert_eq!(trim(text), text.trim());
        assert_eq!(trim_end(text), text.trim_end());
        assert_eq!(is_blank(text), text.trim().is_empty());
    }
}

#[test]
fn lines_and_words_are_parted_where_they_end() {
    for text in ["", "a", "a\n", "a\r\nb", "a\rb\n\nc", "\n", "a\r", "a b  c "] {
        assert_eq!(split_lines(text), text.lines().collect::<Vec<_>>(), "{text:?}");
        assert_eq!(split_words(text), text.split_whitespace().collect::<Vec<_>>(), "{text:?}");
    }
}

#[test]
fn a_text_is_found_where_it_first_stands() {
    assert!(contains_text("abcabd", "abd"));
    assert!(contains_text("abc", ""));
    assert!(!contains_text("ab", "abc"));
    assert_eq!(split_once("a=b=c", "="), Some(("a".to_owned(), "b=c".to_owned())));
    assert_eq!(split_once("abc", "="), None);
}

#[test]
fn numbers_are_written_and_read() {
    assert_eq!(decimal_of(0), "0");
    assert_eq!(decimal_of(u64::MAX), u64::MAX.to_string());
    assert_eq!(wide_decimal_of(u128::MAX), u128::MAX.to_string());
    assert_eq!(signed_decimal_of(i64::MIN), i64::MIN.to_string());
    assert_eq!(signed_decimal_of(-7), "-7");
    for text in ["0", "+7", "007", "4294967295", "4294967296", "99999999999999999999", "", "+", "-1", "1x", "１"] {
        assert_eq!(read_number(text, u32::MAX), text.parse::<u32>().ok(), "{text:?}");
    }
    assert_eq!(read_number("256", 255), None);
    assert_eq!(read_number("255", 255), Some(255));
}

#[test]
fn case_is_ignored_in_ascii_alone() {
    assert!(same_ignoring_case("Image/PNG", "image/png"));
    assert!(!same_ignoring_case("É", "é"));
}

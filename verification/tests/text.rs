use duplicate_finder::text::{chars_of, decimal_string, read_digits, read_unsigned, trim, white_space};

#[test]
fn white_space_is_that_of_unicode() {
    for code in 0..=0x10FFFFu32 {
        if let Some(c) = char::from_u32(code) {
            assert_eq!(white_space(c), c.is_whitespace(), "{:x}", code);
        }
    }
}

#[test]
fn characters_of_a_text() {
    assert_eq!(chars_of("aя\t€"), vec!['a', 'я', '\t', '€']);
    assert!(chars_of("").is_empty());
}

#[test]
fn trim_takes_white_space_off_both_ends() {
    assert_eq!(trim(" \t a b \r\n"), "a b");
    assert_eq!(trim("\u{3000}я\u{a0}"), "я");
    assert_eq!(trim("   "), "");
    assert_eq!(trim(""), "");
    assert_eq!(trim("\u{200b}x"), "\u{200b}x");
}

#[test]
fn numbers_are_written_in_base_ten() {
    for n in [0, 7, 9, 10, 99, 100, 1234567890, u64::MAX] {
        assert_eq!(decimal_string(n), n.to_string());
    }
}

#[test]
fn written_numbers_read_back() {
    for n in [0, 1, 42, 1000000, u64::MAX] {
        let chars = chars_of(&decimal_string(n));
        assert_eq!(read_unsigned(&chars, 0, chars.len(), u64::MAX), Some(n));
    }
}

#[test]
fn unsigned_numbers_are_read_as_parse_reads_them() {
    let texts = [
        "", "0", "00", "007", "+5", "+", "++5", "-1", "5 ", " 5", "1e3", "0x10", "18446744073709551615",
        "18446744073709551616", "99999999999999999999", "+18446744073709551615", "٣",
    ];
    for text in texts {
        let chars = chars_of(text);
        assert_eq!(
            read_unsigned(&chars, 0, chars.len(), u64::MAX),
            text.parse::<u64>().ok(),
            "{}",
            text
        );
    }
}

#[test]
fn numbers_are_bounded() {
    let chars = chars_of("x255y256");
    assert_eq!(read_digits(&chars, 1, 4, 255), Some(255));
    assert_eq!(read_digits(&chars, 5, 8, 255), None);
    assert_eq!(read_digits(&chars, 0, 4, 255), None);
    assert_eq!(read_digits(&chars, 2, 2, 255), Some(0));
}

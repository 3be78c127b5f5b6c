use waywallen::text::{
    chars_of, comes_before, parse_number, position_of, show_hex, show_padded, text_of,
    without_quotes, without_space, NumberError,
};

#[test]
fn white_space_is_what_std_trims() {
    for n in 0..0x11_0000u32 {
        if let Some(c) = char::from_u32(n) {
            let trimmed = without_space(&vec![c]).is_empty();
            assert_eq!(trimmed, c.is_whitespace(), "{n:#x}");
        }
    }
}

#[test]
fn trimming() {
    assert_eq!(text_of(&without_space(&chars_of("  a b \t"))), "a b");
    assert_eq!(text_of(&without_space(&chars_of(" \n "))), "");
    assert_eq!(text_of(&without_quotes(&chars_of("\"'a'b\""))), "a'b");
    assert_eq!(text_of(&without_quotes(&chars_of("''"))), "");
}

#[test]
fn characters_and_back() {
    assert_eq!(text_of(&chars_of("a\u{20ac}\u{1f600}")), "a\u{20ac}\u{1f600}");
}

#[test]
fn numbers_are_shown_as_std_formats_them() {
    for n in [0u64, 1, 9, 10, 255, 256, 999_999, 1_000_000, u64::MAX] {
        assert_eq!(show_padded(n, 10, 6), format!("{n:06}"));
        assert_eq!(show_hex(n, 8), format!("0x{n:08x}"));
        assert_eq!(show_hex(n, 16), format!("0x{n:016x}"));
        assert_eq!(show_padded(n, 10, 0), format!("{n}"));
    }
}

fn kind(e: std::num::ParseIntError) -> NumberError {
    match e.kind() {
        std::num::IntErrorKind::Empty => NumberError::Empty,
        std::num::IntErrorKind::InvalidDigit => NumberError::InvalidDigit,
        std::num::IntErrorKind::PosOverflow => NumberError::TooLarge,
        other => panic!("{other:?}"),
    }
}

#[test]
fn numbers_are_read_as_std_reads_them() {
    for s in [
        "", "+", "-", "0", "+0", "007", "ff", "FF", "fg", "-1", " 1", "1 ", "++1", "+-1",
        "4294967295", "4294967296", "4294967296x", "429496729x", "42949672950x", "x4294967296",
        "18446744073709551615", "18446744073709551616", "1844674407370955161x",
        "18446744073709551616x", "184467440737095516160x", "fffffffffffffffff",
        "ffffffffffffffffg", "fffffffffffffffffg", "00000000000000000000000000001", "\u{0663}",
    ] {
        let chars = chars_of(s);
        assert_eq!(
            parse_number(&chars, 10, u64::MAX),
            s.parse::<u64>().map_err(kind),
            "{s}"
        );
        assert_eq!(
            parse_number(&chars, 10, u32::MAX as u64),
            s.parse::<u32>().map(u64::from).map_err(kind),
            "{s}"
        );
        assert_eq!(
            parse_number(&chars, 16, u64::MAX),
            u64::from_str_radix(s, 16).map_err(kind),
            "{s}"
        );
        assert_eq!(
            parse_number(&chars, 16, u32::MAX as u64),
            u32::from_str_radix(s, 16).map(u64::from).map_err(kind),
            "{s}"
        );
    }
}

#[test]
fn texts_are_ordered_as_strings_are() {
    let words = ["", "a", "aa", "ab", "b", "B", "\u{e9}", "\u{ffff}", "\u{1f600}"];
    for x in words {
        for y in words {
            assert_eq!(comes_before(&chars_of(x), &chars_of(y)), x < y, "{x} {y}");
        }
    }
}

#[test]
fn first_position() {
    assert_eq!(position_of(&chars_of("a:b:c"), ':'), 1);
    assert_eq!(position_of(&chars_of("abc"), ':'), 3);
}

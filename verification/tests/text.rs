use carli::text::{is_whitespace, numeral_string, parse_unsigned_text};

#[test]
fn whitespace_agrees_with_std_for_every_character() {
    for code in 0u32..=0x10ffff {
        if let Some(c) = char::from_u32(code) {
            assert_eq!(is_whitespace(c), c.is_whitespace(), "code point {code:#x}");
        }
    }
}

#[test]
fn numerals_agree_with_std_formatting() {
    for n in [0i64, 7, 10, 99, 100, 12345, -1, -10, i64::MAX, i64::MIN, i32::MIN as i64] {
        assert_eq!(numeral_string(n), n.to_string());
    }
}

#[test]
fn unsigned_reading_agrees_with_std() {
    let samples = [
        "", "0", "00", "007", "+7", "+", "-", "-0", "-1", "255", "256", "1000", "1.0", " 1",
        "1 ", "++1", "+-1", "9999999999999999999999", "18446744073709551615",
        "18446744073709551616", "٣", "1a",
    ];
    for sample in samples {
        assert_eq!(
            parse_unsigned_text(sample, 255),
            sample.parse::<u8>().ok().map(u64::from),
            "sample: {sample:?}"
        );
        assert_eq!(
            parse_unsigned_text(sample, u64::MAX),
            sample.parse::<u64>().ok(),
            "sample: {sample:?}"
        );
    }
}

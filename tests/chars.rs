use arith_parser::chars::{digit_value, is_digit, is_white_space};

#[test]
fn white_space_matches_std_for_every_char() {
    for u in 0..=0x10FFFFu32 {
        if let Some(c) = char::from_u32(u) {
            assert_eq!(c.is_whitespace(), is_white_space(c), "U+{:04X}", u);
        }
    }
}

#[test]
fn decimal_digits_match_std() {
    for u in 0..0x3000u32 {
        if let Some(c) = char::from_u32(u) {
            assert_eq!(c.is_ascii_digit(), is_digit(c));
            if c.is_ascii_digit() {
                assert_eq!(c.to_digit(10).unwrap(), digit_value(c));
            }
        }
    }
}

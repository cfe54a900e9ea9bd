use kuluu::scalar::{Scalar, INFINITY_BITS, MINUS_ONE_BITS, ONE_BITS, SIGN_BIT, ZERO_BITS};
use kuluu::text::{
    decimal_text, is_blank, is_printable, is_white_space, same_text, starts_with_char, strip_prefix,
    trim,
};

fn s(x: f32) -> Scalar {
    Scalar::from_bits(x.to_bits())
}

#[test]
fn white_space_is_what_std_takes_for_it() {
    for n in 0..=0x10ffffu32 {
        if let Some(c) = char::from_u32(n) {
            assert_eq!(is_white_space(c), c.is_whitespace(), "{n:#x}");
            assert_eq!(is_printable(c), matches!(c, '\u{20}'..='\u{7E}'), "{n:#x}");
        }
    }
}

#[test]
fn trimming_is_that_of_std() {
    for text in ["", " ", " a", "a ", "\t a b \u{3000}", "\u{a0}\u{2003}x\u{85}", "ab", " \n "] {
        assert_eq!(trim(text), text.trim());
        assert_eq!(trim(trim(text)), trim(text));
        assert_eq!(is_blank(text), text.trim().is_empty());
    }
}

#[test]
fn prefixes_are_those_of_std() {
    for text in ["", "/wait", "/wait 3", "/wai", "x/wait", "\u{3000}/wait"] {
        assert_eq!(strip_prefix(text, "/wait"), text.strip_prefix("/wait"));
        assert_eq!(starts_with_char(text, '/'), text.starts_with('/'));
        assert_eq!(same_text(text, "/wait"), text == "/wait");
    }
}

#[test]
fn numerals_are_those_of_std() {
    for n in [0u64, 1, 9, 10, 11, 99, 100, 1024, u32::MAX as u64, u64::MAX] {
        assert_eq!(decimal_text(n), n.to_string());
    }
}

#[test]
fn patterns_are_those_of_the_numbers() {
    assert_eq!(ONE_BITS, 1.0f32.to_bits());
    assert_eq!(MINUS_ONE_BITS, (-1.0f32).to_bits());
    assert_eq!(ZERO_BITS, 0.0f32.to_bits());
    assert_eq!(INFINITY_BITS, f32::INFINITY.to_bits());
    assert_eq!(SIGN_BIT, (-0.0f32).to_bits());
}

#[test]
fn patterns_compare_as_the_numbers_do() {
    let numbers = [
        f32::NEG_INFINITY,
        f32::MIN,
        -2.5,
        -1.0,
        -f32::MIN_POSITIVE,
        -1.0e-45,
        -0.0,
        0.0,
        1.0e-45,
        f32::MIN_POSITIVE,
        0.375,
        1.0,
        2.5,
        f32::MAX,
        f32::INFINITY,
        f32::NAN,
        -f32::NAN,
    ];
    for a in numbers {
        assert_eq!(s(a).is_nan(), a.is_nan());
        assert_eq!(s(a).is_finite(), a.is_finite());
        for b in numbers {
            assert_eq!(s(a).gt(s(b)), a > b, "{a} > {b}");
            assert_eq!(s(a).le(s(b)), a <= b, "{a} <= {b}");
            assert_eq!(s(a).total_key() < s(b).total_key(), a.total_cmp(&b).is_lt(), "{a}, {b}");
            assert_eq!(s(a).total_key() == s(b).total_key(), a.total_cmp(&b).is_eq(), "{a}, {b}");
        }
    }
}

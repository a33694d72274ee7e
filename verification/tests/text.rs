//! Text: words, fields, numbers, the order of numbers by their bits.

use wisdom::bits::{first_greatest, greater};
use wisdom::text::{
    chars_of, decimal_text, is_text, join_fields, parse_number, parse_usize, split_fields,
    split_words, starts_with, string_of, trim,
};

fn strings(parts: &Vec<Vec<char>>) -> Vec<String> {
    parts.iter().map(string_of).collect()
}

#[test]
fn characters_and_back() {
    let text = "position fen 楚河 x";
    assert_eq!(string_of(&chars_of(text)), text);
    assert_eq!(chars_of(text).len(), 17);
    assert_eq!(string_of(&Vec::new()), "");
}

#[test]
fn words_are_split_like_split_whitespace() {
    for text in ["", "  ", "go depth 5", " a\tb\n c ", "x\u{3000}y\u{a0}z\u{200b}w", "\u{85}q"] {
        let expected: Vec<&str> = text.split_whitespace().collect();
        assert_eq!(strings(&split_words(&chars_of(text))), expected);
    }
}

#[test]
fn white_space_is_what_the_standard_says() {
    for u in 0..0x3100u32 {
        if let Some(c) = char::from_u32(u) {
            assert_eq!(wisdom::text::is_space_char(c), c.is_whitespace());
        }
    }
}

#[test]
fn fields_are_split_like_split() {
    for text in ["", ",", "a,b,c", "a,,b", ",x,"] {
        let expected: Vec<&str> = text.split(',').collect();
        let parts = split_fields(&chars_of(text), ',');
        assert_eq!(strings(&parts), expected);
        assert_eq!(string_of(&join_fields(&parts, ',')), text);
    }
}

#[test]
fn trimming_is_like_trim() {
    for text in ["", "  ", " a b ", "x", "\tq\n"] {
        assert_eq!(string_of(&trim(&chars_of(text))), text.trim());
    }
}

#[test]
fn texts_are_compared() {
    assert!(is_text(&chars_of("moves"), "moves"));
    assert!(!is_text(&chars_of("move"), "moves"));
    assert!(starts_with(&chars_of("fen,policy"), "fen"));
    assert!(!starts_with(&chars_of("fe"), "fen"));
}

#[test]
fn numbers_are_written_in_decimal() {
    for n in [0, 7, 10, 8099, 123456789, usize::MAX] {
        assert_eq!(string_of(&decimal_text(n)), format!("{}", n));
        assert_eq!(parse_usize(&decimal_text(n)), Some(n));
    }
}

#[test]
fn numbers_are_read_like_parse() {
    for text in ["", "+", "-1", "+5", "007", "12a", "18446744073709551615", "18446744073709551616", " 1"]
    {
        assert_eq!(parse_usize(&chars_of(text)), text.parse::<usize>().ok());
        assert_eq!(
            parse_number(&chars_of(text), 255),
            text.parse::<u8>().ok().map(|v| v as u64)
        );
    }
    assert_eq!(parse_number(&chars_of("255"), 255), Some(255));
    assert_eq!(parse_number(&chars_of("256"), 255), None);
}

#[test]
fn bits_are_ordered_like_their_numbers() {
    let numbers = [
        0.0f32, -0.0, 1.0, -1.0, 0.5, -1000000.0, f32::MAX, f32::MIN, f32::INFINITY,
        f32::NEG_INFINITY, f32::NAN, 1e-40, -1e-40,
    ];
    for a in numbers {
        for b in numbers {
            assert_eq!(greater(a.to_bits(), b.to_bits()), a > b);
        }
    }
}

#[test]
fn the_first_of_the_greatest_is_found() {
    let bits = |v: &[f32]| v.iter().map(|x| x.to_bits()).collect::<Vec<u32>>();
    let floor = (-1000000.0f32).to_bits();
    assert_eq!(first_greatest(&bits(&[0.5, 2.0, 2.0, 1.0]), floor), Some(1));
    assert_eq!(first_greatest(&bits(&[-5.0, -3.0]), floor), Some(1));
    assert_eq!(first_greatest(&bits(&[f32::NAN, -2.0e6]), floor), None);
    assert_eq!(first_greatest(&bits(&[]), floor), None);
    assert_eq!(first_greatest(&bits(&[0.0, -0.0]), floor), Some(0));
}

#[test]
fn numbers_with_a_sign() {
    let text = |n| wisdom::text::signed_decimal_text(n).into_iter().collect::<String>();
    assert_eq!(text(0), "0");
    assert_eq!(text(-7), "-7");
    assert_eq!(text(i32::MAX), "2147483647");
    assert_eq!(text(i32::MIN), "-2147483648");
}

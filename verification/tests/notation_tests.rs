use prometheus_radiator_exporter::notation::{
    decimal_digits, digits_to_end, exponent_at, is_digit_char, magnitude, push_integer,
    read_integer, reads_as_float, skip_digits, special_word_at,
};
use prometheus_radiator_exporter::text::{
    chars_of, position, push_chars, same_text, text_of, tuple_position_of, Position,
};

fn chars(s: &str) -> Vec<char> {
    s.chars().collect()
}

fn tuple(items: &[&str]) -> Vec<String> {
    items.iter().map(|s| s.to_string()).collect()
}

fn integer_text(v: i64) -> String {
    let mut out = String::new();
    push_integer(&mut out, v);
    out
}

#[test]
fn texts_compare_by_their_first_difference() {
    assert_eq!(position("", ""), Position::Same);
    assert_eq!(position("", "a"), Position::Before);
    assert_eq!(position("a", ""), Position::After);
    assert_eq!(position("abc", "abd"), Position::Before);
    assert_eq!(position("abd", "abc"), Position::After);
    assert_eq!(position("ab", "abc"), Position::Before);
    assert_eq!(position("abc", "abc"), Position::Same);
    assert_eq!(position("Z", "a"), Position::Before);
    assert_eq!(position("z", "é"), Position::Before);
    assert_eq!(position("é", "\u{1F600}"), Position::Before);
}

#[test]
fn text_order_agrees_with_the_order_of_strings() {
    let samples = ["", "a", "A", "ab", "b", "é", "z", "10", "9", "_", ":", "\u{1F600}", "a\u{0}"];
    for a in samples {
        for b in samples {
            let expected = match a.cmp(b) {
                std::cmp::Ordering::Less => Position::Before,
                std::cmp::Ordering::Equal => Position::Same,
                std::cmp::Ordering::Greater => Position::After,
            };
            assert_eq!(position(a, b), expected, "{a:?} against {b:?}");
            assert_eq!(same_text(a, b), a == b);
        }
    }
}

#[test]
fn tuples_compare_place_by_place() {
    assert_eq!(tuple_position_of(&tuple(&[]), &tuple(&[])), Position::Same);
    assert_eq!(tuple_position_of(&tuple(&[]), &tuple(&[""])), Position::Before);
    assert_eq!(tuple_position_of(&tuple(&["a"]), &tuple(&[])), Position::After);
    assert_eq!(tuple_position_of(&tuple(&["a", "b"]), &tuple(&["a", "c"])), Position::Before);
    assert_eq!(tuple_position_of(&tuple(&["b", "a"]), &tuple(&["a", "z"])), Position::After);
    assert_eq!(tuple_position_of(&tuple(&["a", "b"]), &tuple(&["a", "b"])), Position::Same);
    assert_eq!(tuple_position_of(&tuple(&["a"]), &tuple(&["a", ""])), Position::Before);
    assert_eq!(tuple_position_of(&tuple(&["ab", "c"]), &tuple(&["a", "bc"])), Position::After);
}

#[test]
fn characters_are_taken_and_put_back() {
    assert_eq!(chars_of(""), Vec::<char>::new());
    assert_eq!(chars_of("aé\u{1F600}"), vec!['a', 'é', '\u{1F600}']);
    let all = chars("hello world");
    assert_eq!(text_of(&all, 0, 5), "hello");
    assert_eq!(text_of(&all, 6, 11), "world");
    assert_eq!(text_of(&all, 3, 3), "");
    let mut out = String::from("say ");
    push_chars(&mut out, &all, 6, 11);
    assert_eq!(out, "say world");
    push_chars(&mut out, &all, 0, 0);
    assert_eq!(out, "say world");
}

#[test]
fn digits_of_unsigned_numbers() {
    assert_eq!(decimal_digits(0), chars("0"));
    assert_eq!(decimal_digits(7), chars("7"));
    assert_eq!(decimal_digits(10), chars("10"));
    assert_eq!(decimal_digits(10014), chars("10014"));
    assert_eq!(decimal_digits(u64::MAX), chars("18446744073709551615"));
}

#[test]
fn magnitudes_of_signed_numbers() {
    assert_eq!(magnitude(0), 0);
    assert_eq!(magnitude(5), 5);
    assert_eq!(magnitude(-5), 5);
    assert_eq!(magnitude(i64::MAX), 9223372036854775807);
    assert_eq!(magnitude(i64::MIN), 9223372036854775808);
}

#[test]
fn integers_are_written_in_decimal() {
    assert_eq!(integer_text(0), "0");
    assert_eq!(integer_text(-1), "-1");
    assert_eq!(integer_text(42), "42");
    assert_eq!(integer_text(-1000), "-1000");
    assert_eq!(integer_text(i64::MAX), "9223372036854775807");
    assert_eq!(integer_text(i64::MIN), "-9223372036854775808");
    let mut out = String::from("x=");
    push_integer(&mut out, -12);
    assert_eq!(out, "x=-12");
}

#[test]
fn integers_are_read_from_decimal() {
    assert_eq!(read_integer(&chars("0")), Some(0));
    assert_eq!(read_integer(&chars("-0")), Some(0));
    assert_eq!(read_integer(&chars("+0")), Some(0));
    assert_eq!(read_integer(&chars("42")), Some(42));
    assert_eq!(read_integer(&chars("+42")), Some(42));
    assert_eq!(read_integer(&chars("-42")), Some(-42));
    assert_eq!(read_integer(&chars("00012")), Some(12));
    assert_eq!(read_integer(&chars("9223372036854775807")), Some(i64::MAX));
    assert_eq!(read_integer(&chars("-9223372036854775808")), Some(i64::MIN));
    assert_eq!(read_integer(&chars("0000000000000000000000000000000000000001")), Some(1));
}

#[test]
fn what_is_no_integer_in_range_is_not_read() {
    assert_eq!(read_integer(&chars("")), None);
    assert_eq!(read_integer(&chars("+")), None);
    assert_eq!(read_integer(&chars("-")), None);
    assert_eq!(read_integer(&chars("--1")), None);
    assert_eq!(read_integer(&chars("+-1")), None);
    assert_eq!(read_integer(&chars("1-")), None);
    assert_eq!(read_integer(&chars(" 1")), None);
    assert_eq!(read_integer(&chars("1 ")), None);
    assert_eq!(read_integer(&chars("1.0")), None);
    assert_eq!(read_integer(&chars("1e3")), None);
    assert_eq!(read_integer(&chars("0x10")), None);
    assert_eq!(read_integer(&chars("١٢")), None);
    assert_eq!(read_integer(&chars("9223372036854775808")), None);
    assert_eq!(read_integer(&chars("-9223372036854775809")), None);
    assert_eq!(read_integer(&chars("18446744073709551616")), None);
    assert_eq!(read_integer(&chars("99999999999999999999999999999999")), None);
}

#[test]
fn reading_an_integer_gives_back_what_was_written() {
    for v in [0, 1, -1, 9, 10, -10, 99, 100, 123456789, -987654321, i64::MAX, i64::MIN] {
        assert_eq!(read_integer(&chars(&integer_text(v))), Some(v));
    }
}

#[test]
fn digits_are_the_ten_ascii_digits() {
    for c in '0'..='9' {
        assert!(is_digit_char(c));
    }
    for c in ['/', ':', 'a', ' ', '-', '+', '.', '٣', '\u{0}'] {
        assert!(!is_digit_char(c));
    }
}

#[test]
fn runs_of_digits_are_skipped() {
    let text = chars("123abc45");
    assert_eq!(skip_digits(&text, 0), 3);
    assert_eq!(skip_digits(&text, 1), 3);
    assert_eq!(skip_digits(&text, 3), 3);
    assert_eq!(skip_digits(&text, 6), 8);
    assert_eq!(skip_digits(&text, 8), 8);
    assert!(!digits_to_end(&text, 0));
    assert!(!digits_to_end(&text, 5));
    assert!(digits_to_end(&text, 6));
    assert!(digits_to_end(&text, 8));
}

#[test]
fn exponents_need_a_digit() {
    assert!(exponent_at(&chars("e5"), 0));
    assert!(exponent_at(&chars("E5"), 0));
    assert!(exponent_at(&chars("e+5"), 0));
    assert!(exponent_at(&chars("e-05"), 0));
    assert!(exponent_at(&chars("1e10"), 1));
    assert!(!exponent_at(&chars("e"), 0));
    assert!(!exponent_at(&chars("e+"), 0));
    assert!(!exponent_at(&chars("e-"), 0));
    assert!(!exponent_at(&chars("e+-5"), 0));
    assert!(!exponent_at(&chars("e5x"), 0));
    assert!(!exponent_at(&chars("e5.0"), 0));
    assert!(!exponent_at(&chars("x5"), 0));
    assert!(!exponent_at(&chars("5"), 0));
    assert!(!exponent_at(&chars(""), 0));
    assert!(!exponent_at(&chars("e5"), 2));
}

#[test]
fn the_special_words_in_any_case() {
    for word in ["inf", "INF", "Inf", "iNf", "nan", "NaN", "NAN", "infinity", "Infinity", "INFINITY"] {
        assert!(special_word_at(&chars(word), 0), "{word}");
    }
    assert!(special_word_at(&chars("-inf"), 1));
    assert!(special_word_at(&chars("+NaN"), 1));
    for word in ["", "in", "infi", "infinit", "infinityy", "nano", "na", "ınf", "inf ", "nan1", "infinite"] {
        assert!(!special_word_at(&chars(word), 0), "{word}");
    }
    assert!(!special_word_at(&chars("-inf"), 0));
}

#[test]
fn floating_point_literals() {
    for text in [
        "0", "1", "-1", "+1", "3.5", "-3.5", "+3.5", "5.", ".5", "-.5", "+5.", "1e5", "1E5",
        "1e+5", "1e-5", "1.5e10", ".5e3", "5.e3", "0.000", "000.5", "inf", "-inf", "+inf", "nan",
        "-nan", "NaN", "Infinity", "-INFINITY", "123456789012345678901234567890", "1e400",
    ] {
        assert!(reads_as_float(&chars(text)), "{text}");
    }
    for text in [
        "", "+", "-", ".", "+.", "-.", "e5", ".e5", "1e", "1e+", "1e-", "1e5.0", "1.5.5", "1..5",
        "--1", "+-1", "1-", " 1", "1 ", "1_000", "0x10", "1f", "1.0f", "in", "infin", "nanx",
        "+ inf", "i", "1,5", "١",
    ] {
        assert!(!reads_as_float(&chars(text)), "{text}");
    }
}

#[test]
fn the_readers_agree_with_the_standard_ones() {
    let pieces = ["", "+", "-", "0", "1", "9", ".", "e", "E", "inf", "nan", "x", " "];
    for a in pieces {
        for b in pieces {
            for c in pieces {
                for d in pieces {
                    let text = format!("{a}{b}{c}{d}");
                    assert_eq!(
                        read_integer(&chars(&text)),
                        text.parse::<i64>().ok(),
                        "as an integer: {text:?}"
                    );
                    assert_eq!(
                        reads_as_float(&chars(&text)),
                        text.parse::<f64>().is_ok(),
                        "as a floating-point literal: {text:?}"
                    );
                }
            }
        }
    }
}

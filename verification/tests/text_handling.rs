//! Cutting up text.

use vocan::text::{
    chars_of, comma, decimal_text, end_trimmed, end_without, find_last, float_text, holds,
    lowered_from, parse_u32, pieces_of, text_of, words_of,
};

fn joined(v: Vec<Vec<char>>) -> Vec<String> {
    v.iter().map(|w| w.iter().collect()).collect()
}

#[test]
fn words_are_those_of_the_standard_library() {
    for t in [
        "",
        "   ",
        "one",
        " one  two\tthree\r\nfour\u{a0}five\u{3000}six ",
        "Stream #0:0: Audio: pcm_s16le, 44100 Hz, mono, s16, 705 kb/s",
    ] {
        let expected: Vec<String> = t.split_whitespace().map(|w| w.to_string()).collect();
        assert_eq!(joined(words_of(&chars_of(t))), expected);
    }
}

#[test]
fn pieces_are_those_of_the_standard_library() {
    for t in ["", ":", "00:00:05.00", "a:b", "::", "no separator"] {
        let expected: Vec<String> = t.split(':').map(|w| w.to_string()).collect();
        assert_eq!(joined(pieces_of(&chars_of(t), ':')), expected);
    }
}

#[test]
fn float_texts_are_those_that_the_standard_library_reads() {
    for t in [
        "", "+", "-", ".", "1", "-1", "+1", "1.", ".5", "-.5", "1.5", "1..5", "1e5", "1E5", "1e+5", "1e-5",
        "1e", "e5", "1e5.0", "inf", "-inf", "INF", "Infinity", "infinit", "nan", "NaN", "-nan", "+inf", "0x1",
        "1_000", " 1", "1 ", "00", "05.00", "1.5e10", ".e1", "1.e1", "--1", "+-1", "N/A", "1,0", "۱",
    ] {
        assert_eq!(float_text(&chars_of(t)), t.parse::<f32>().is_ok(), "{t:?}");
    }
}

#[test]
fn unsigned_numbers_are_read_as_the_standard_library_reads_them() {
    for t in [
        "", "+", "-1", "0", "+7", "44100", "4294967295", "4294967296", "99999999999999999999", "12a", " 12", "007",
    ] {
        assert_eq!(parse_u32(&chars_of(t)), t.parse::<u32>().ok(), "{t:?}");
    }
}

#[test]
fn ends_are_trimmed() {
    let c = chars_of("48000,,");
    assert_eq!(end_without(&c, ','), 5);
    assert_eq!(end_without(&chars_of(",,"), ','), 0);
    assert_eq!(end_trimmed(&chars_of("a b \n\t")), 3);
    assert_eq!(find_last(&chars_of("a}b}c"), '}'), Some(3));
    assert_eq!(find_last(&chars_of("abc"), '}'), None);
    assert!(holds(&chars_of("  Duration: 1"), &chars_of("Duration:")));
    assert!(!holds(&chars_of("duration"), &chars_of("Duration:")));
    assert!(holds(&chars_of("x"), &chars_of("")));
    assert_eq!(lowered_from(&chars_of("xWaV\u{c4}"), 1), "wav\u{c4}");
    assert_eq!(text_of(&['a', 'b']), "ab");
    assert_eq!(comma("a", "b"), "a,b");
    assert_eq!(decimal_text(0), "0");
    assert_eq!(decimal_text(192_000), "192000");
    assert_eq!(decimal_text(u128::MAX), format!("{}", u128::MAX));
}

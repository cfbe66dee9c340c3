use qlog_analyzer::order::{stable_order, stable_sort};
use qlog_analyzer::text::{decimal_text, join, parse_u64, precedes, same_text};

#[test]
fn decimal_numbers_read_back() {
    for number in [0, 1, 9, 10, 99, 100, 1_234_567_890, u64::MAX - 1, u64::MAX] {
        let text = decimal_text(number);
        assert_eq!(text, number.to_string());
        assert_eq!(parse_u64(&text), Some(number));
    }
}

#[test]
fn numbers_are_parsed_as_the_standard_library_does() {
    for text in [
        "", "+", "-", "0", "+0", "-0", "00012", "12 ", " 12", "1_000", "0x10", "\u{0663}",
        "18446744073709551615", "18446744073709551616", "99999999999999999999", "+5", "++5", "5+",
    ] {
        assert_eq!(parse_u64(text), text.parse::<u64>().ok(), "{text}");
    }
}

#[test]
fn strings_are_ordered_as_the_standard_library_does() {
    let texts = ["", "a", "ab", "b", "B", "\u{e9}", "z", "\u{ffff}", "\u{1f600}", "a\u{0}"];
    for a in texts {
        for b in texts {
            assert_eq!(same_text(a, b), a == b, "{a} {b}");
            assert_eq!(precedes(a, b), a <= b, "{a} {b}");
        }
    }
}

#[test]
fn strings_are_joined() {
    let parts = |list: &[&str]| list.iter().map(|part| part.to_string()).collect::<Vec<_>>();
    assert_eq!(join(&parts(&[]), "; "), "");
    assert_eq!(join(&parts(&["a"]), "; "), "a");
    assert_eq!(join(&parts(&["a", "", "b"]), "; "), "a; ; b");
}

#[test]
fn sorting_is_stable() {
    let words = ["b", "a", "c", "a", "b", "a"].map(|word| word.to_string()).to_vec();
    assert_eq!(stable_order(&words), vec![1, 3, 5, 0, 4, 2]);
    assert_eq!(stable_sort(words), ["a", "a", "a", "b", "b", "c"].map(String::from).to_vec());
    assert_eq!(stable_order(&Vec::<String>::new()), Vec::<usize>::new());
}

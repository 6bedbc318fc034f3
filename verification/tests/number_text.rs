use invite_customers::lines::split_lines;
use invite_customers::number_text::parses_as_float;

#[test]
fn numbers_are_recognised() {
    for text in [
        "0", "7", "52.833502", "-8.522366", "+1", "1.", ".5", "-.5", "1e5", "1E5", "1e+5", "1e-5",
        "1.5e10", ".5e1", "5.e1", "007", "inf", "-inf", "+INF", "Infinity", "-infinity", "nan",
        "NaN", "+nan", "1e0005",
    ] {
        assert!(parses_as_float(text), "{}", text);
        assert!(text.parse::<f64>().is_ok(), "{}", text);
    }
}

#[test]
fn other_texts_are_refused() {
    for text in [
        "", "+", "-", ".", "+.", "e5", "1e", "1e+", "1e-", ".e1", "1.5.2", "1 ", " 1", "1,5",
        "0x10", "1_000", "in", "infi", "infinit", "infinityy", "na", "nann", "--1", "+-1", "1e5.0",
        "1f", "45h", "١",
    ] {
        assert!(!parses_as_float(text), "{}", text);
        assert!(text.parse::<f64>().is_err(), "{}", text);
    }
}

#[test]
fn a_text_without_line_feed_is_one_line() {
    assert_eq!(split_lines(""), vec![""]);
    assert_eq!(split_lines("abc"), vec!["abc"]);
}

#[test]
fn lines_are_split_at_each_line_feed() {
    assert_eq!(split_lines("a\nbc"), vec!["a", "bc"]);
    assert_eq!(split_lines("a\n"), vec!["a", ""]);
    assert_eq!(split_lines("\n"), vec!["", ""]);
    assert_eq!(split_lines("\n\nx\n"), vec!["", "", "x", ""]);
    assert_eq!(split_lines("a\r\nb"), vec!["a\r", "b"]);
    assert_eq!(split_lines("é\nü"), vec!["é", "ü"]);
}

#[test]
fn lines_joined_give_the_text() {
    for text in ["", "a", "a\nb", "\n", "x\n\ny\n"] {
        assert_eq!(split_lines(text).join("\n"), text);
        assert_eq!(split_lines(text), text.split('\n').collect::<Vec<&str>>());
    }
}

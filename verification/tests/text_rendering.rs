use collector::text::{format_i32, format_u64, is_blank_text, join_with_spaces, trim_text};

#[test]
fn decimal_of_zero_and_single_digits() {
    assert_eq!(format_u64(0), "0");
    assert_eq!(format_u64(7), "7");
}

#[test]
fn decimal_of_multi_digit_values() {
    assert_eq!(format_u64(10), "10");
    assert_eq!(format_u64(1234567890), "1234567890");
    assert_eq!(format_u64(u64::MAX), "18446744073709551615");
}

#[test]
fn signed_decimal_values() {
    assert_eq!(format_i32(0), "0");
    assert_eq!(format_i32(42), "42");
    assert_eq!(format_i32(-42), "-42");
    assert_eq!(format_i32(i32::MIN), "-2147483648");
    assert_eq!(format_i32(i32::MAX), "2147483647");
}

#[test]
fn trimming_matches_std_trim() {
    let samples = [
        "",
        "   ",
        "  hello  ",
        "\t\nnote\r\n",
        "\u{3000}wide\u{2003}",
        "a b  c",
        "\u{85}x\u{a0}",
        "no-space",
    ];
    for s in samples {
        assert_eq!(trim_text(s), s.trim());
    }
}

#[test]
fn blank_texts() {
    assert!(is_blank_text(""));
    assert!(is_blank_text(" \t\r\n"));
    assert!(is_blank_text("\u{2028}\u{3000}"));
    assert!(!is_blank_text(" x "));
}

#[test]
fn joining_command_lines() {
    let none: Vec<String> = vec![];
    assert_eq!(join_with_spaces(&none), "");
    assert_eq!(join_with_spaces(&vec!["python".to_string()]), "python");
    assert_eq!(
        join_with_spaces(&vec!["python".to_string(), "-m".to_string(), "http.server".to_string()]),
        "python -m http.server"
    );
    assert_eq!(join_with_spaces(&vec!["a".to_string(), "".to_string(), "b".to_string()]), "a  b");
}

#[test]
fn trimming_twice_changes_nothing_more() {
    for s in ["  a b  ", "\u{2000}x\u{2000}", "", "   "] {
        let once = trim_text(s);
        assert_eq!(trim_text(&once), once);
    }
}

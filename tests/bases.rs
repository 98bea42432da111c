use nt::bases::{
    base_row, colorize_duplicate_base10, colorize_if_palindrome, format_value, is_palindrome,
    tally_hits, to_base, COLOR_OFF, DIM_ON, PALINDROME_ON,
};

#[test]
fn test_is_palindrome_empty_string() {
    assert!(!is_palindrome(""));
}

#[test]
fn test_is_palindrome_single_char() {
    assert!(!is_palindrome("a"));
    assert!(!is_palindrome("1"));
}

#[test]
fn test_is_palindrome_two_chars_same() {
    assert!(is_palindrome("aa"));
    assert!(is_palindrome("11"));
    assert!(is_palindrome("ZZ"));
}

#[test]
fn test_is_palindrome_two_chars_different() {
    assert!(!is_palindrome("ab"));
    assert!(!is_palindrome("12"));
}

#[test]
fn test_is_palindrome_odd_length() {
    assert!(is_palindrome("aba"));
    assert!(is_palindrome("12321"));
    assert!(is_palindrome("racecar"));
    assert!(is_palindrome("A1A"));
}

#[test]
fn test_is_palindrome_even_length() {
    assert!(is_palindrome("abba"));
    assert!(is_palindrome("1221"));
    assert!(is_palindrome("ABCCBA"));
}

#[test]
fn test_is_palindrome_non_palindromes() {
    assert!(!is_palindrome("abc"));
    assert!(!is_palindrome("123"));
    assert!(!is_palindrome("hello"));
    assert!(!is_palindrome("12345"));
}

#[test]
fn test_is_palindrome_case_sensitive() {
    assert!(!is_palindrome("Aa"));
    assert!(!is_palindrome("Aba"));
    assert!(!is_palindrome("aBA"));
    assert!(is_palindrome("ABA"));
    assert!(is_palindrome("aba"));
    assert!(is_palindrome("AbA"));
}

#[test]
fn test_is_palindrome_base_representations() {
    assert!(is_palindrome("101"));
    assert!(is_palindrome("1111"));
    assert!(!is_palindrome("1010"));
    assert!(is_palindrome("121"));
}

#[test]
fn test_to_base_basic() {
    assert_eq!(to_base(5, 2), "101");
    assert_eq!(to_base(10, 2), "1010");
    assert_eq!(to_base(123, 10), "123");
    assert_eq!(to_base(255, 16), "FF");
    assert_eq!(to_base(16, 16), "10");
}

#[test]
fn test_to_base_extended() {
    assert_eq!(to_base(35, 36), "Z");
    assert_eq!(to_base(36, 36), "10");
    assert_eq!(to_base(36, 37), "a");
    assert_eq!(to_base(37, 37), "10");
    assert_eq!(to_base(61, 62), "z");
    assert_eq!(to_base(62, 62), "10");
    assert_eq!(to_base(0, 62), "0");
    assert_eq!(to_base(10, 62), "A");
    assert_eq!(to_base(35, 62), "Z");
    assert_eq!(to_base(36, 62), "a");
}

#[test]
fn test_to_base_digit_ranges() {
    assert_eq!(to_base(9, 10), "9");
    assert_eq!(to_base(10, 16), "A");
    assert_eq!(to_base(15, 16), "F");
    assert_eq!(to_base(35, 36), "Z");
    assert_eq!(to_base(36, 62), "a");
    assert_eq!(to_base(61, 62), "z");
}

#[test]
fn to_base_large_value_in_binary() {
    assert_eq!(to_base(1_000_003, 2), "11110100001001000011");
    assert_eq!(to_base(usize::MAX, 16), "FFFFFFFFFFFFFFFF");
}

#[test]
fn colorize_marks_palindromes_only() {
    let on = colorize_if_palindrome("121");
    assert_eq!(on, format!("{}121{}", PALINDROME_ON, COLOR_OFF));
    assert_eq!(colorize_if_palindrome("123"), "123");
    assert_eq!(
        colorize_duplicate_base10("17"),
        format!("{}17{}", DIM_ON, COLOR_OFF)
    );
}

#[test]
fn format_value_with_and_without_filter() {
    assert_eq!(format_value("123", true), "-");
    assert_eq!(format_value("123", false), "123");
    assert_eq!(
        format_value("1221", true),
        format!("{}1221{}", PALINDROME_ON, COLOR_OFF)
    );
}

#[test]
fn base_row_counts_palindromic_bases() {
    // 5 is "101" in base 2, "11" in base 4, and a single digit from base 6 on.
    let row = base_row(5, false, &None).unwrap();
    assert_eq!(row.cells.len(), 63);
    assert_eq!(row.cells[0], "5");
    assert_eq!(row.cells[1], format!("{}101{}", PALINDROME_ON, COLOR_OFF));
    assert_eq!(row.cells[2], "12");
    assert_eq!(row.cells[3], format!("{}11{}", PALINDROME_ON, COLOR_OFF));
    assert_eq!(row.cells[9], format!("{}5{}", DIM_ON, COLOR_OFF));
    assert_eq!(row.palindrome_count, 2);
    assert_eq!(row.cells[62], "2");
    assert!(row.hits[0] && !row.hits[1] && row.hits[2]);
}

#[test]
fn base_row_filter_by_palindrome_value() {
    assert!(base_row(5, true, &Some("101".to_string())).is_some());
    assert!(base_row(5, true, &Some("12".to_string())).is_none());
    let row = base_row(5, true, &Some("11".to_string())).unwrap();
    assert_eq!(row.cells[2], "-");
}

#[test]
fn tally_adds_hits() {
    let mut counts = vec![0usize, 4, usize::MAX];
    tally_hits(&mut counts, &vec![true, false, true]);
    assert_eq!(counts, vec![1, 4, usize::MAX]);
}

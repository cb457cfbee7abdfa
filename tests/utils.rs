use raytrace::utils::{clamp, split_long_lines, wrap_words};

#[test]
fn clamp_inside_range_keeps_value() {
    assert_eq!(clamp(5, 0, 10), 5);
    assert_eq!(clamp(0, 0, 10), 0);
    assert_eq!(clamp(10, 0, 10), 10);
}

#[test]
fn clamp_below_and_above() {
    assert_eq!(clamp(-3, 0, 10), 0);
    assert_eq!(clamp(12, 0, 10), 10);
    assert_eq!(clamp(1.5f64, 0.0, 1.0), 1.0);
    assert_eq!(clamp(-0.5f64, 0.0, 1.0), 0.0);
}

#[test]
fn split_long_lines_breaks_at_spaces() {
    assert_eq!(split_long_lines(6, "aa bb cc"), vec!["aa bb".to_string(), "cc".to_string()]);
}

#[test]
fn split_long_lines_normalises_white_space() {
    assert_eq!(split_long_lines(10, "  a\tb\n c  "), vec!["a b c".to_string()]);
}

#[test]
fn split_long_lines_empty_text_is_one_empty_line() {
    assert_eq!(split_long_lines(70, ""), vec![String::new()]);
}

#[test]
fn split_long_lines_word_longer_than_limit() {
    assert_eq!(
        split_long_lines(3, "abcdef gh"),
        vec![String::new(), "abcdef".to_string(), "gh".to_string()]
    );
}

#[test]
fn split_long_lines_ppm_rows() {
    let row = "255 0 0 ".repeat(10);
    let lines = split_long_lines(20, &row);
    assert_eq!(
        lines,
        vec![
            "255 0 0 255 0 0 255".to_string(),
            "0 0 255 0 0 255 0 0".to_string(),
            "255 0 0 255 0 0 255".to_string(),
            "0 0 255 0 0 255 0 0".to_string(),
        ]
    );
}

#[test]
fn wrap_words_counts_bytes() {
    let words = vec!["héé".to_string(), "ab".to_string()];
    // "héé" is 5 bytes: 0 + 5 < 8, then 6 + 2 < 8 fails
    assert_eq!(wrap_words(8, &words), vec!["héé".to_string(), "ab".to_string()]);
    assert_eq!(wrap_words(9, &words), vec!["héé ab".to_string()]);
}

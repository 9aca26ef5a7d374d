use vanplan::wrap::wrap_line_count;

#[test]
fn wrap_counts_lines() {
    assert_eq!(wrap_line_count("", 10), 1);
    assert_eq!(wrap_line_count("hello", 10), 1);
    assert_eq!(wrap_line_count("hello world", 10), 2);
    assert_eq!(wrap_line_count("hello world", 11), 1);
    assert_eq!(wrap_line_count("a\nb", 10), 2);
    assert_eq!(wrap_line_count("a\n\nb", 10), 3);
    assert_eq!(wrap_line_count("abcdefghijkl", 5), 3);
    assert_eq!(wrap_line_count("ab abcdefghij", 5), 3);
    assert_eq!(wrap_line_count("abcde", 5), 1);
    assert_eq!(wrap_line_count("abcdef abc", 5), 2);
}

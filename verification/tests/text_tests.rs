use rust_grep::text::chars_of;
use rust_grep::text::contains_chars;
use rust_grep::text::split_lines;
use rust_grep::text::str_eq;

#[test]
fn split_lines_basic() {
    assert_eq!(Vec::<&str>::new(), split_lines(""));
    assert_eq!(vec!["one line"], split_lines("one line"));
    assert_eq!(vec!["a", "b"], split_lines("a\nb"));
}

#[test]
fn split_lines_trailing_newline_adds_no_line() {
    assert_eq!(vec!["a", "b"], split_lines("a\nb\n"));
    assert_eq!(vec![""], split_lines("\n"));
}

#[test]
fn split_lines_strips_carriage_return_before_newline() {
    assert_eq!(vec!["a", "b"], split_lines("a\r\nb\r\n"));
    // A carriage return not followed by a newline stays.
    assert_eq!(vec!["a\r"], split_lines("a\r"));
}

#[test]
fn split_lines_keeps_empty_lines() {
    assert_eq!(vec!["a", "", "b"], split_lines("a\n\nb"));
}

#[test]
fn contains_chars_substring() {
    let hay = chars_of("hello world");
    assert!(contains_chars(&hay, &chars_of("lo wo")));
    assert!(contains_chars(&hay, &chars_of("")));
    assert!(contains_chars(&hay, &chars_of("hello world")));
    assert!(!contains_chars(&hay, &chars_of("worlds")));
    assert!(!contains_chars(&hay, &chars_of("WORLD")));
}

#[test]
fn str_eq_compares_characters() {
    assert!(str_eq("", ""));
    assert!(str_eq("abc", "abc"));
    assert!(!str_eq("abc", "abd"));
    assert!(!str_eq("abc", "ab"));
}

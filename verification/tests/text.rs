use regrate::text::{chars_of, sort_strings, split_str, str_le};

#[test]
fn strings_sort_by_code_point() {
    let v = vec!["b".to_string(), "B".to_string(), "ab".to_string(), "a".to_string(), "é".to_string()];
    let mut expected = v.clone();
    expected.sort();
    assert_eq!(sort_strings(v), expected);
    assert!(str_le("a", "ab"));
    assert!(!str_le("b", "ab"));
    assert!(str_le("", ""));
}

#[test]
fn split_keeps_empty_pieces() {
    assert_eq!(split_str("a\0\0b", '\0'), vec!["a", "", "b"]);
    assert_eq!(split_str("", '/'), vec![""]);
    assert_eq!(chars_of("hé"), vec!['h', 'é']);
}

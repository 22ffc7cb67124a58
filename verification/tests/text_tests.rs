use rsml_cli::text::str_less;

#[test]
fn str_less_is_the_byte_order() {
    let words = ["", "A", "B", "a", "aa", "ab", "b", "é", "日本"];
    for (i, a) in words.iter().enumerate() {
        for (j, b) in words.iter().enumerate() {
            assert_eq!(str_less(a, b), i < j);
            assert_eq!(str_less(a, b), a < b);
        }
    }
}

#[test]
fn str_less_of_a_prefix() {
    assert!(str_less("abc", "abcd"));
    assert!(!str_less("abcd", "abc"));
    assert!(!str_less("abc", "abc"));
}

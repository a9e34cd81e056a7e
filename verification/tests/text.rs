use server_utils::text::{
    chars_of, count_leading, count_trailing, find_first, split_range, string_of,
};

#[test]
fn chars_round_trip() {
    let chars = chars_of("a/é?");
    assert_eq!(chars, vec!['a', '/', 'é', '?']);
    assert_eq!(string_of(&chars, 0, 4), "a/é?");
    assert_eq!(string_of(&chars, 1, 3), "/é");
    assert_eq!(string_of(&chars, 2, 2), "");
}

#[test]
fn runs_are_counted() {
    let chars = chars_of("//a/b///");
    assert_eq!(count_leading(&chars, 0, '/'), 2);
    assert_eq!(count_leading(&chars, 2, '/'), 0);
    assert_eq!(count_leading(&chars, 5, '/'), 3);
    assert_eq!(count_trailing(&chars, 0, 8, '/'), 3);
    assert_eq!(count_trailing(&chars, 0, 5, '/'), 0);
    assert_eq!(count_trailing(&chars, 5, 8, '/'), 3);
    assert_eq!(count_leading(&chars_of(""), 0, '/'), 0);
}

#[test]
fn first_occurrence_is_found() {
    assert_eq!(find_first(&chars_of("/a?b?c"), '?'), 2);
    assert_eq!(find_first(&chars_of("/a"), '?'), 2);
    assert_eq!(find_first(&chars_of(""), '?'), 0);
}

#[test]
fn splitting_keeps_empty_pieces() {
    let chars = chars_of("a//b/");
    assert_eq!(split_range(&chars, 0, 5, '/'), vec!["a", "", "b", ""]);
    assert_eq!(split_range(&chars, 0, 1, '/'), vec!["a"]);
    assert_eq!(split_range(&chars, 1, 1, '/'), vec![""]);
    assert_eq!(split_range(&chars, 1, 3, '/'), vec!["", "", ""]);
    assert_eq!(split_range(&chars, 1, 2, '/'), vec!["", ""]);
}

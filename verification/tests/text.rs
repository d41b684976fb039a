use starry::text::{decimal_string, find_first, split_name};

#[test]
fn decimal_string_writes_numerals() {
    assert_eq!(decimal_string(0), "0");
    assert_eq!(decimal_string(7), "7");
    assert_eq!(decimal_string(10), "10");
    assert_eq!(decimal_string(409), "409");
    assert_eq!(decimal_string(1_234_567_890), "1234567890");
    assert_eq!(decimal_string(usize::MAX), usize::MAX.to_string());
}

#[test]
fn decimal_string_agrees_with_std() {
    for n in 0..2_000usize {
        assert_eq!(decimal_string(n), n.to_string());
    }
}

#[test]
fn find_first_gives_the_first_place_or_the_length() {
    assert_eq!(find_first("alice/repo", '/'), 5);
    assert_eq!(find_first("a/b/c", '/'), 1);
    assert_eq!(find_first("/x", '/'), 0);
    assert_eq!(find_first("alice", '/'), 5);
    assert_eq!(find_first("", '/'), 0);
    assert_eq!(find_first("éé/ü", '/'), 2);
}

#[test]
fn split_name_of_a_user() {
    assert_eq!(split_name("alice"), ("alice", None));
    assert_eq!(split_name(""), ("", None));
}

#[test]
fn split_name_of_a_repo() {
    assert_eq!(split_name("alice/repoX"), ("alice", Some("repoX")));
    assert_eq!(split_name("alice/"), ("alice", Some("")));
    assert_eq!(split_name("/repoX"), ("", Some("repoX")));
    assert_eq!(split_name("éé/ü"), ("éé", Some("ü")));
}

#[test]
fn split_name_drops_what_follows_a_second_slash() {
    assert_eq!(split_name("a/b/c"), ("a", Some("b")));
    assert_eq!(split_name("a//c"), ("a", Some("")));
}

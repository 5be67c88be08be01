use dirmap::DirError;
use dirmap::listing::assemble;
use dirmap::names::anonymous;
use dirmap::names::decimal_string;
use dirmap::path::byte_len;
use dirmap::path::is_self_alias;
use dirmap::path::rsplit_once;
use dirmap::path::split_once;
use dirmap::path::starts_hidden;

#[test]
fn decimal_numerals() {
    assert_eq!(decimal_string(0), "0");
    assert_eq!(decimal_string(7), "7");
    assert_eq!(decimal_string(10), "10");
    assert_eq!(decimal_string(1905), "1905");
    assert_eq!(decimal_string(1234567890), "1234567890");
    assert_eq!(decimal_string(u128::MAX), u128::MAX.to_string());
}

#[test]
fn generated_names() {
    assert_eq!(anonymous(0), ".||#:0");
    assert_eq!(anonymous(42), ".||#:42");
    assert!(starts_hidden(&anonymous(3)));
}

#[test]
fn paths_are_cut_at_the_first_separator() {
    assert_eq!(split_once("a/b/c"), Some(("a", "b/c")));
    assert_eq!(split_once("abc"), None);
    assert_eq!(split_once(""), None);
    assert_eq!(split_once("/"), Some(("", "")));
    assert_eq!(split_once("a/"), Some(("a", "")));
    assert_eq!(split_once("/a"), Some(("", "a")));
    assert_eq!(split_once("a//b"), Some(("a", "/b")));
    assert_eq!(split_once("é/ü/ß"), Some(("é", "ü/ß")));
}

#[test]
fn paths_are_cut_at_the_last_separator() {
    assert_eq!(rsplit_once("a/b/c"), Some(("a/b", "c")));
    assert_eq!(rsplit_once("abc"), None);
    assert_eq!(rsplit_once(""), None);
    assert_eq!(rsplit_once("/"), Some(("", "")));
    assert_eq!(rsplit_once("a/"), Some(("a", "")));
    assert_eq!(rsplit_once("a//b"), Some(("a/", "b")));
    assert_eq!(rsplit_once("é/ü/ß"), Some(("é/ü", "ß")));
}

#[test]
fn reserved_names() {
    assert!(is_self_alias("."));
    assert!(!is_self_alias(".."));
    assert!(!is_self_alias(""));
    assert!(!is_self_alias("a"));
    assert!(starts_hidden(".a"));
    assert!(starts_hidden("."));
    assert!(!starts_hidden(""));
    assert!(!starts_hidden("a."));
    assert_eq!(byte_len("abc"), 3);
    assert_eq!(byte_len("é"), 2);
}

#[test]
fn error_messages() {
    assert_eq!(
        DirError::FileConflict.message(),
        "File from merging directory was not dropped before merging"
    );
    assert_eq!(
        DirError::DuplicateName("a".to_string()).message(),
        "Duplicate name conflict for 'a' when trying to merge directory"
    );
    assert_eq!(DirError::NameInUse("a".to_string()).message(), "Name 'a' is already in use");
    assert_eq!(DirError::InvalidPath("a/b".to_string()).message(), "Path 'a/b' is not allowed");
    assert_eq!(DirError::NoDir("a".to_string()).message(), "Unable to locate 'a' directory");
    assert_eq!(DirError::NoFile("a".to_string()).message(), "Unable to locate 'a' file");
}

#[test]
fn text_is_put_together_in_order() {
    let parts = vec![
        ("<1>".to_string(), "a".to_string()),
        ("<2>".to_string(), "b".to_string()),
    ];
    assert_eq!(assemble("T", &parts), "> T<1>a<2>b");
    assert_eq!(assemble("T", &Vec::new()), "> T");
}

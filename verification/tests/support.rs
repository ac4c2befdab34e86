use libkuiper::error::join_names;
use libkuiper::text::{chars_of, contains, find_from, push_all, slice_of, starts_at, text_of};
use libkuiper::{Headers, InterpolationError, KuiperError, Params};

fn chars(s: &str) -> Vec<char> {
    s.chars().collect()
}

#[test]
fn find_and_contains() {
    let s = chars("one two one");
    assert_eq!(find_from(&s, &chars("one"), 0), Some(0));
    assert_eq!(find_from(&s, &chars("one"), 1), Some(8));
    assert_eq!(find_from(&s, &chars("one"), 9), None);
    assert_eq!(find_from(&s, &chars("one"), 100), None);
    assert_eq!(find_from(&s, &chars(""), 11), Some(11));
    assert_eq!(find_from(&s, &chars(""), 12), None);
    assert!(contains(&s, &chars("two")));
    assert!(contains(&s, &chars("")));
    assert!(!contains(&s, &chars("three")));
    assert!(starts_at(&s, &chars("two"), 4));
    assert!(!starts_at(&s, &chars("two"), 5));
    assert!(!starts_at(&s, &chars("two"), 10));
}

#[test]
fn strings_and_characters_convert_both_ways() {
    assert_eq!(chars_of("héllo"), chars("héllo"));
    assert_eq!(text_of(&chars("héllo")), "héllo");
    assert_eq!(slice_of(&chars("héllo"), 1, 3), chars("él"));
    assert_eq!(slice_of(&chars("héllo"), 2, 2), chars(""));
    let mut out = chars("ab");
    push_all(&mut out, &chars("cd"));
    assert_eq!(out, chars("abcd"));
}

#[test]
fn dict_keeps_one_value_per_name_in_insertion_order() {
    let mut params = Params::new();
    assert!(params.is_empty());
    params.insert("b".to_string(), "1".to_string());
    params.insert("a".to_string(), "2".to_string());
    params.insert("b".to_string(), "3".to_string());
    assert_eq!(params.len(), 2);
    assert!(!params.is_empty());
    assert_eq!(params.name_at(0), "b");
    assert_eq!(params.value_at(0), "3");
    assert_eq!(params.name_at(1), "a");
    assert_eq!(params.get("a"), Some(&"2".to_string()));
    assert_eq!(params.get("c"), None);
    assert!(params.contains_key("b"));
    assert!(!params.contains_key("B"));
    params.insert_if_absent("a".to_string(), "4".to_string());
    params.insert_if_absent("c".to_string(), "5".to_string());
    assert_eq!(params.get("a"), Some(&"2".to_string()));
    assert_eq!(params.get("c"), Some(&"5".to_string()));
    assert_eq!(params.len(), 3);
}

#[test]
fn dicts_are_laid_over_each_other() {
    let mut base = Headers::new();
    base.insert("A".to_string(), Some("1".to_string()));
    base.insert("B".to_string(), None);
    let mut over = Headers::new();
    over.insert("C".to_string(), Some("3".to_string()));
    over.insert("B".to_string(), Some("2".to_string()));
    base.overwrite_with(over);
    assert_eq!(base.len(), 3);
    assert_eq!(base.get("B"), Some(&Some("2".to_string())));
    assert_eq!(base.name_at(0), "A");
    assert_eq!(base.name_at(1), "B");
    assert_eq!(base.name_at(2), "C");

    let mut under = Headers::new();
    under.insert("D".to_string(), None);
    under.insert("A".to_string(), Some("9".to_string()));
    base.fill_from(under);
    assert_eq!(base.len(), 4);
    assert_eq!(base.get("A"), Some(&Some("1".to_string())));
    assert_eq!(base.get("D"), Some(&None));
    assert_eq!(base.name_at(3), "D");
}

#[test]
fn errors_describe_themselves() {
    assert_eq!(
        InterpolationError::MissingEnvVar("FOO".to_string()).message(),
        "missing env var: 'FOO'"
    );
    assert_eq!(
        InterpolationError::InvalidFormat.message(),
        "invalid interpolation format"
    );
    assert_eq!(
        InterpolationError::InvalidExpr("x".to_string()).message(),
        "invalid expr: 'x'"
    );
    assert_eq!(KuiperError::RequestNotFound.message(), "request not found");
    assert_eq!(KuiperError::FileFormatError.message(), "file format error");
    assert_eq!(KuiperError::PathError.message(), "path error");
    assert_eq!(
        KuiperError::InterpolationError(InterpolationError::InvalidFormat).message(),
        "interpolation error 'invalid interpolation format'"
    );
    assert_eq!(
        KuiperError::Ambiguous(vec!["a".to_string(), "b".to_string()]).message(),
        "multiple candidate requests: [a, b]"
    );
    let io = std::io::Error::new(std::io::ErrorKind::PermissionDenied, "denied");
    assert_eq!(KuiperError::from(io).message(), "I/O error: denied");
    let json = serde_json::from_str::<serde_json::Value>("{").unwrap_err();
    let expected = format!("JSON error: {}", json);
    assert_eq!(KuiperError::from(json).message(), expected);
}

#[test]
fn names_are_joined_with_commas() {
    assert_eq!(join_names(&Vec::new()), "");
    assert_eq!(join_names(&vec!["a".to_string()]), "a");
    assert_eq!(
        join_names(&vec!["a".to_string(), "".to_string(), "c".to_string()]),
        "a, , c"
    );
}

#[test]
fn errors_convert_and_tell_their_kind() {
    assert!(KuiperError::FileFormatError.is_file_format_error());
    assert!(!KuiperError::PathError.is_file_format_error());
    let error = KuiperError::from(InterpolationError::InvalidFormat);
    assert!(matches!(
        error,
        KuiperError::InterpolationError(InterpolationError::InvalidFormat)
    ));
    assert!(!error.is_file_format_error());
}

#[test]
fn dicts_are_equal_whatever_their_order() {
    let mut a = Headers::new();
    a.insert("A".to_string(), Some("1".to_string()));
    a.insert("B".to_string(), None);
    let mut b = Headers::new();
    b.insert("B".to_string(), None);
    b.insert("A".to_string(), Some("1".to_string()));
    assert!(a == b);
    assert!(a.clone() == a);
    assert_eq!(a.clone().name_at(0), "A");
    b.insert("A".to_string(), Some("2".to_string()));
    assert!(a != b);
    b.insert("A".to_string(), None);
    assert!(a != b);
    let mut c = Headers::new();
    c.insert("A".to_string(), Some("1".to_string()));
    assert!(a != c);
    assert!(c != a);
    c.insert("C".to_string(), None);
    assert!(a != c);
    assert!(Params::new() == Params::new());
}

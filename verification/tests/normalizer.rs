use folly::util::camel_to_snake;
use folly::util::get_char_type;
use folly::util::strip_file_name;
use folly::util::CharType;
use folly::util::FileType;

#[test]
fn char_classes() {
    assert!(get_char_type('_') == CharType::DELIM);
    assert!(get_char_type('a') == CharType::LOWER);
    assert!(get_char_type('z') == CharType::LOWER);
    assert!(get_char_type('A') == CharType::UPPER);
    assert!(get_char_type('Z') == CharType::UPPER);
    assert!(get_char_type('3') == CharType::REGULAR);
    assert!(get_char_type('/') == CharType::REGULAR);
}

#[test]
fn snake_case_upper_runs() {
    assert_eq!(camel_to_snake("HTTPServer"), "http_server");
}

#[test]
fn snake_case_pascal() {
    assert_eq!(camel_to_snake("FooBar"), "foo_bar");
    assert_eq!(camel_to_snake("FooBarHeader"), "foo_bar_header");
}

#[test]
fn snake_case_keeps_snake() {
    assert_eq!(camel_to_snake("already_snake"), "already_snake");
}

#[test]
fn snake_case_single_leading_capital() {
    assert_eq!(camel_to_snake("XServer"), "x_server");
    assert_eq!(camel_to_snake("Ab"), "ab");
}

#[test]
fn snake_case_mixed_delimiters() {
    assert_eq!(camel_to_snake("foo_Bar"), "foo_bar");
    assert_eq!(camel_to_snake("aB_c"), "a_b_c");
    assert_eq!(camel_to_snake("foo_BAr"), "foo_b_ar");
}

#[test]
fn snake_case_idempotent_on_samples() {
    let samples = [
        "HTTPServer",
        "FooBar",
        "already_snake",
        "XMLHttpRequest",
        "a_",
        "a__B",
        "",
        "A",
        "ABc",
        "foo/Bar9Baz",
    ];
    for s in samples {
        let once = camel_to_snake(s);
        let twice = camel_to_snake(&once);
        assert_eq!(once, twice);
    }
}

#[test]
fn classify_test_suffix_beats_source_suffix() {
    let (name, role) = strip_file_name("widget_test.cpp");
    assert!(role == FileType::TEST);
    assert_eq!(name, "widget_");
}

#[test]
fn classify_plain_source() {
    let (name, role) = strip_file_name("Foo.cpp");
    assert!(role == FileType::SOURCE);
    assert_eq!(name, "foo");
    let (name2, role2) = strip_file_name("FooBar.cc");
    assert!(role2 == FileType::SOURCE);
    assert_eq!(name2, "foo_bar");
}

#[test]
fn classify_template_before_header() {
    let (name, role) = strip_file_name("FooBar-inl.h");
    assert!(role == FileType::TEMPLATE);
    assert_eq!(name, "foo_bar");
}

#[test]
fn classify_header() {
    let (name, role) = strip_file_name("FooBar.h");
    assert!(role == FileType::HEADER);
    assert_eq!(name, "foo_bar");
}

#[test]
fn classify_unknown_keeps_name() {
    let (name, role) = strip_file_name("README");
    assert!(role == FileType::UNKNOWN);
    assert_eq!(name, "README");
}

#[test]
fn classify_test_cc() {
    let (_, role) = strip_file_name("widget_test.cc");
    assert!(role == FileType::TEST);
}

use folly::resolve::strip_directive;
use folly::resolve::HeaderLib;

fn directive(rest: &str) -> String {
    format!("#incl{}e{}", "ud", rest)
}

#[test]
fn resolves_in_scope_reference() {
    let line = directive(" <folly/FooBar.h>");
    let r = strip_directive(&line, "folly").unwrap();
    let (key, lib) = r.unwrap();
    assert_eq!(key.name, "foo_bar");
    assert_eq!(key.root_dir, "folly");
    assert!(lib == HeaderLib::FOLLY);
}

#[test]
fn resolves_nested_directory() {
    let line = directive(" <folly/io/async/EventBase.h>");
    let r = strip_directive(&line, "folly").unwrap();
    let (key, lib) = r.unwrap();
    assert_eq!(key.name, "event_base");
    assert_eq!(key.root_dir, "folly/io/async");
    assert!(lib == HeaderLib::FOLLY);
}

#[test]
fn out_of_scope_reference_is_tagged_unknown() {
    let line = directive(" <vector>");
    let r = strip_directive(&line, "folly").unwrap();
    let (_, lib) = r.unwrap();
    assert!(lib == HeaderLib::UNKNOWN);
}

#[test]
fn scope_is_configurable() {
    let line = directive(" <lib/Foo.h>");
    let r = strip_directive(&line, "lib").unwrap();
    let (key, lib) = r.unwrap();
    assert_eq!(key.name, "foo");
    assert_eq!(key.root_dir, "lib");
    assert!(lib == HeaderLib::FOLLY);
    let r2 = strip_directive(&line, "folly").unwrap();
    let (_, lib2) = r2.unwrap();
    assert!(lib2 == HeaderLib::UNKNOWN);
}

#[test]
fn quoted_template_strips_like_plain_header() {
    let a = strip_directive(&directive(" \"FooBar-inl.h\""), "folly").unwrap().unwrap();
    let b = strip_directive(&directive(" \"FooBar.h\""), "folly").unwrap().unwrap();
    assert_eq!(a.0.name, "foo_bar");
    assert_eq!(a.0.root_dir, "");
    assert_eq!(a.0, b.0);
}

#[test]
fn non_directive_lines_are_skipped() {
    assert_eq!(strip_directive("int x;", "folly").unwrap(), None);
    assert_eq!(strip_directive("", "folly").unwrap(), None);
    // A directive with no delimited path carries nothing to resolve.
    assert_eq!(strip_directive(&directive(" FOO_MACRO"), "folly").unwrap(), None);
}

#[test]
fn unclosed_angle_is_fatal() {
    assert!(strip_directive(&directive(" <folly/Foo.h"), "folly").is_err());
}

#[test]
fn unclosed_quote_is_fatal() {
    assert!(strip_directive(&directive(" \"Foo.h"), "folly").is_err());
}

#[test]
fn close_before_open_is_fatal() {
    assert!(strip_directive(&directive(" > <folly/Foo.h"), "folly").is_err());
}

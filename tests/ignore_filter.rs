use h2kv::ignore_filter::{extract_globs, FilterError};
use h2kv::IgnoreFilter;

#[test]
fn test_matches() {
    let filter = IgnoreFilter::try_from_str("**/* !/*.html !/assets/*").unwrap();
    assert!(filter.matches("/index.js"));
    assert!(filter.matches("/target/index.html"));
    assert!(!filter.matches("/index.html"));
    assert!(!filter.matches("/assets/index.css"));
}

#[test]
fn test_extract_globs() {
    let input = r#"
            # c1
            one
            # c2
            two  three # c3
            four
        "#;
    assert_eq!(extract_globs(input), vec!["one", "two", "three", "four"]);
}

#[test]
fn extract_globs_splits_on_escaped_newline() {
    assert_eq!(extract_globs("a\\nb # c\\nd"), vec!["a", "b", "d"]);
    assert_eq!(extract_globs("x#y z\n\tw"), vec!["x", "w"]);
    assert_eq!(extract_globs("a\u{A0}b\tc"), vec!["a", "b", "c"]);
    assert!(extract_globs("").is_empty());
}

#[test]
fn empty_filter_is_inactive() {
    let filter = IgnoreFilter::try_from_str("  # only a comment\n").unwrap();
    assert!(!filter.is_active());
    assert!(!filter.matches("/anything"));
    assert!(!IgnoreFilter::empty().is_active());
}

#[test]
fn filter_order_of_writing_does_not_matter() {
    let a = IgnoreFilter::try_from_str("/a* !/a* /b").unwrap();
    let b = IgnoreFilter::try_from_str("!/a* /b /a*").unwrap();
    for path in ["/a", "/abc", "/b", "/c"] {
        assert_eq!(a.matches(path), b.matches(path), "{path}");
    }
    assert!(!a.matches("/abc"));
    assert!(a.matches("/b"));
}

#[test]
fn star_does_not_cross_separator() {
    let filter = IgnoreFilter::try_from_str("/*.txt").unwrap();
    assert!(filter.matches("/a.txt"));
    assert!(!filter.matches("/dir/a.txt"));
    assert!(!filter.matches("/A.TXT"));
}

#[test]
fn invalid_pattern_is_refused() {
    let r = IgnoreFilter::try_from_str("ok ![abc");
    match r {
        Err(FilterError { pattern }) => assert_eq!(pattern, "![abc"),
        Ok(_) => panic!("pattern should not compile"),
    }
}

#[test]
fn filter_from_environment_value() {
    assert!(!IgnoreFilter::try_from_env(None).unwrap().is_active());
    let f = IgnoreFilter::try_from_env(Some("/a !/b")).unwrap();
    assert!(f.is_active());
    assert!(f.matches("/a"));
    assert!(IgnoreFilter::try_from_env(Some("[")).is_err());
}

#[test]
fn filter_lists_entries_in_trial_order() {
    let f = IgnoreFilter::try_from_str("**/* !/*.html !/assets/*").unwrap();
    assert_eq!(f.describe(), "[ \"!/assets/*\" \"!/*.html\" \"**/*\" ]");
    assert_eq!(IgnoreFilter::empty().describe(), "[ ]");
}

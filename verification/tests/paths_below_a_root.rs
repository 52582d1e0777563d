//! Fragments and relative paths.
use noyalib::inclusion::{normalize_relative_path, split_fragment, InputSource, SymlinkPolicy};

#[test]
fn a_fragment_follows_the_first_hash() {
    assert_eq!(split_fragment("a.yaml#anchor"), ("a.yaml", Some("anchor")));
    assert_eq!(split_fragment("a.yaml"), ("a.yaml", None));
    assert_eq!(split_fragment("a#b#c"), ("a", Some("b#c")));
    assert_eq!(split_fragment("#"), ("", Some("")));
    assert_eq!(split_fragment("\u{e9}#\u{fc}"), ("\u{e9}", Some("\u{fc}")));
}

#[test]
fn paths_are_cleaned_component_by_component() {
    assert_eq!(normalize_relative_path("a/b.yaml"), Ok(vec!["a", "b.yaml"]));
    assert_eq!(normalize_relative_path("./a//b/./c"), Ok(vec!["a", "b", "c"]));
    assert_eq!(normalize_relative_path("a/../b"), Ok(vec!["b"]));
    assert_eq!(normalize_relative_path("a/b/.."), Ok(vec!["a"]));
    assert_eq!(normalize_relative_path(""), Ok(vec![]));
    assert_eq!(normalize_relative_path("..."), Ok(vec!["..."]));
    assert_eq!(normalize_relative_path("\u{e9}/x/"), Ok(vec!["\u{e9}", "x"]));
}

#[test]
fn paths_that_leave_the_root_are_refused() {
    assert_eq!(normalize_relative_path("../x"), Err("escapes sandbox root"));
    assert_eq!(normalize_relative_path("a/../../x"), Err("escapes sandbox root"));
    assert_eq!(normalize_relative_path("/etc/passwd"), Err("must be relative to the root"));
    assert_eq!(normalize_relative_path("/.."), Err("must be relative to the root"));
}

#[test]
fn a_source_has_a_name_and_a_text() {
    let s = InputSource::new("config.yaml", "k: 1\n");
    assert_eq!(s.name, "config.yaml");
    assert_eq!(s.bytes, "k: 1\n");
}

#[test]
fn links_are_followed_below_the_root_by_default() {
    assert_eq!(SymlinkPolicy::default(), SymlinkPolicy::FollowWithinRoot);
    assert_ne!(SymlinkPolicy::default(), SymlinkPolicy::Reject);
}

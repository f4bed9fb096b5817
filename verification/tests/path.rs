use httpx_urls::error::InvalidUrl;
use httpx_urls::path::{normalize_path, validate_path};
use httpx_urls::utils::unquote;

#[test]
fn normalize_path_resolves_a_parent_segment() {
    assert_eq!(normalize_path("/a/b/../c"), "/a/c");
}

#[test]
fn normalize_path_never_pops_the_leading_slash() {
    assert_eq!(normalize_path("/a/../../b"), "/b");
    assert_eq!(normalize_path("/.."), "");
    assert_eq!(normalize_path("/../a"), "/a");
}

#[test]
fn normalize_path_drops_a_dot_segment() {
    assert_eq!(normalize_path("a/./b"), "a/b");
}

#[test]
fn normalize_path_without_a_dot_is_the_identity() {
    assert_eq!(normalize_path("abc"), "abc");
    assert_eq!(normalize_path("/a//b/"), "/a//b/");
    assert_eq!(normalize_path(""), "");
}

#[test]
fn normalize_path_keeps_empty_segments() {
    assert_eq!(normalize_path("/a//b/./"), "/a//b/");
    assert_eq!(normalize_path("a/b/.."), "a");
    assert_eq!(normalize_path("a/b/../"), "a/");
}

#[test]
fn normalize_path_keeps_dots_inside_a_segment() {
    assert_eq!(normalize_path("/a.b/c..d/..."), "/a.b/c..d/...");
}

#[test]
fn normalize_path_of_a_relative_path_may_run_empty() {
    assert_eq!(normalize_path(".."), "");
    assert_eq!(normalize_path("../a"), "a");
    assert_eq!(normalize_path("a/../.."), "");
}

#[test]
fn validate_path_accepts_what_may_stand() {
    assert_eq!(validate_path("/a", true, true), Ok(()));
    assert_eq!(validate_path("", true, true), Ok(()));
    assert_eq!(validate_path("//a", true, false), Ok(()));
    assert_eq!(validate_path(":a", true, false), Ok(()));
    assert_eq!(validate_path("a", false, false), Ok(()));
}

#[test]
fn validate_path_behind_an_authority_wants_a_slash() {
    assert_eq!(
        validate_path("a", false, true),
        Err(InvalidUrl { message: "For absolute URLs, path must be empty or begin with '/'".to_string() })
    );
}

#[test]
fn validate_path_of_a_relative_reference_refuses_two_slashes() {
    assert_eq!(
        validate_path("//a", false, false),
        Err(InvalidUrl { message: "Relative URLs cannot have a path starting with '//'".to_string() })
    );
}

#[test]
fn validate_path_of_a_relative_reference_refuses_a_colon() {
    assert_eq!(
        validate_path(":a", false, false),
        Err(InvalidUrl { message: "Relative URLs cannot have a path starting with ':'".to_string() })
    );
}

#[test]
fn unquote_strips_double_quotes() {
    assert_eq!(unquote("\"abc\""), "abc");
    assert_eq!(unquote("\"\""), "");
}

#[test]
fn unquote_strips_single_quotes() {
    assert_eq!(unquote("'abc'"), "abc");
}

#[test]
fn unquote_strips_one_layer_only() {
    assert_eq!(unquote("\"\"abc\"\""), "\"abc\"");
}

#[test]
fn unquote_leaves_other_values_alone() {
    assert_eq!(unquote("abc"), "abc");
    assert_eq!(unquote("\"abc'"), "\"abc'");
    assert_eq!(unquote("\"abc"), "\"abc");
    assert_eq!(unquote(""), "");
    assert_eq!(unquote("\""), "\"");
    assert_eq!(unquote("é\"é"), "é\"é");
}

use httpx_urls::text::{from_chars, join, split, str_eq, to_chars};

fn chars(s: &str) -> Vec<char> {
    s.chars().collect()
}

fn pieces(items: &[&str]) -> Vec<Vec<char>> {
    items.iter().map(|s| chars(s)).collect()
}

#[test]
fn split_cuts_at_every_separator() {
    assert_eq!(split(&chars("a/b/c"), '/'), pieces(&["a", "b", "c"]));
    assert_eq!(split(&chars("/a//b/"), '/'), pieces(&["", "a", "", "b", ""]));
    assert_eq!(split(&chars("abc"), '/'), pieces(&["abc"]));
    assert_eq!(split(&chars(""), '/'), pieces(&[""]));
    assert_eq!(split(&chars("/"), '/'), pieces(&["", ""]));
}

#[test]
fn join_puts_the_separator_between_the_pieces() {
    assert_eq!(join(&pieces(&["a", "b", "c"]), '/'), chars("a/b/c"));
    assert_eq!(join(&pieces(&["", ""]), '/'), chars("/"));
    assert_eq!(join(&pieces(&["a"]), '/'), chars("a"));
    assert_eq!(join(&pieces(&[]), '/'), chars(""));
}

#[test]
fn join_undoes_split() {
    for s in ["", "a", "/", "//", "a/b", "/a/", "é/ü//"] {
        assert_eq!(join(&split(&chars(s), '/'), '/'), chars(s));
    }
}

#[test]
fn strings_and_characters_convert_both_ways() {
    assert_eq!(to_chars("aé€"), vec!['a', 'é', '€']);
    assert_eq!(from_chars(&vec!['a', 'é', '€']), "aé€");
    assert!(str_eq("é", "é"));
    assert!(!str_eq("e", "é"));
}

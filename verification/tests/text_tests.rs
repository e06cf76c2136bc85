use zotero_bridge::text::{interleave_chars, str_replace_chars};

fn chars(s: &str) -> Vec<char> {
    s.chars().collect()
}

fn text(v: &[char]) -> String {
    v.iter().collect()
}

#[test]
fn empty_pattern_replaces_like_str_replace() {
    let r = str_replace_chars(&chars("ab"), &chars(""), &chars("-"));
    assert_eq!(text(&r), "ab".replace("", "-"));
    assert_eq!(text(&interleave_chars(&chars(""), &chars("x"))), "x");
}

#[test]
fn literal_pattern_replaces_every_occurrence() {
    let r = str_replace_chars(&chars("a(b(c"), &chars("("), &chars("-"));
    assert_eq!(text(&r), "a-b-c");
}

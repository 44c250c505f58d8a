use clipnotes::classify::{auto_tags_for_text_and_url, domain_tag, same_text, tags_for_domain};
use clipnotes::text::join_words;
use clipnotes::{compute_text_hash, default_capture_type, detect_capture_type, normalize_text_for_hash};

#[test]
fn normalize_collapses_whitespace_and_case() {
    assert_eq!(normalize_text_for_hash("  Hello \t  World\n\nAgain  "), "hello world again");
    assert_eq!(normalize_text_for_hash(""), "");
    assert_eq!(normalize_text_for_hash("   \n\t "), "");
}

#[test]
fn join_words_uses_single_spaces() {
    let words = vec!["a".to_string(), "bc".to_string(), "d".to_string()];
    assert_eq!(join_words(&words), "a bc d");
    assert_eq!(join_words(&Vec::new()), "");
}

#[test]
fn hash_is_sha256_of_normalized_text() {
    let h = compute_text_hash("  Hello   WORLD ");
    assert_eq!(h, "b94d27b9934d3e08a52e52d7da7dabfac484efe37a5380ee9088f7ace2efcde9");
    assert_eq!(h.len(), 64);
    assert_eq!(compute_text_hash("hello world"), h);
    assert_ne!(compute_text_hash("hello  worlds"), h);
}

#[test]
fn capture_type_link_code_text() {
    assert_eq!(detect_capture_type("https://github.com/rust-lang/rust"), "link");
    assert_eq!(detect_capture_type("fn main() {\n    println!();\n}"), "code");
    assert_eq!(detect_capture_type("class Foo\nbar"), "code");
    assert_eq!(detect_capture_type("a; b; c"), "text");
    assert_eq!(detect_capture_type("just some words\non two lines"), "text");
    assert_eq!(detect_capture_type("hello"), "text");
    assert_eq!(default_capture_type(), "text");
}

#[test]
fn auto_tags_from_domains() {
    assert_eq!(auto_tags_for_text_and_url("https://github.com/owner/repo"), vec!["github".to_string()]);
    assert_eq!(auto_tags_for_text_and_url("https://docs.rs/regex"), vec!["rust-docs".to_string()]);
    assert_eq!(auto_tags_for_text_and_url("https://www.example.com/page"), vec!["www".to_string()]);
    assert_eq!(auto_tags_for_text_and_url("https://localhost/"), vec!["localhost".to_string()]);
    assert!(auto_tags_for_text_and_url("http://127.0.0.1/x").is_empty());
    assert!(auto_tags_for_text_and_url("not a url").is_empty());
}

#[test]
fn domain_tags_direct() {
    assert_eq!(domain_tag("github.com"), "github");
    assert_eq!(domain_tag("docs.rs"), "rust-docs");
    assert_eq!(domain_tag("news.ycombinator.com"), "news");
    assert_eq!(domain_tag("nodots"), "nodots");
    assert!(tags_for_domain(&None).is_empty());
    assert_eq!(tags_for_domain(&Some("gist.github.com".to_string())), vec!["gist".to_string()]);
}

#[test]
fn same_text_compares_characters() {
    assert!(same_text("abc", "abc"));
    assert!(!same_text("abc", "abd"));
    assert!(!same_text("abc", "ab"));
    assert!(same_text("", ""));
}

use clipnotes::rules::combine_rule_matches;
use clipnotes::rules::apply_rules;
use clipnotes::screenshot::{is_probable_screenshot, is_snipping_window_title, size_suggests_screenshot, SnipTracker};
use clipnotes::Rule;

fn rule(pattern: &str, field: &str, action: &str, tag: Option<&str>) -> Rule {
    Rule {
        pattern: pattern.to_string(),
        field: field.to_string(),
        action: action.to_string(),
        tag: tag.map(|t| t.to_string()),
    }
}

#[test]
fn github_url_rule_adds_tag() {
    let rules = vec![rule("^https://github\\.com", "url", "tag", Some("github"))];
    let url = "https://github.com/owner/repo";
    let (tags, ignore, merge) = apply_rules(url, Some(url), None, "link", &rules);
    assert_eq!(tags, vec!["github".to_string()]);
    assert!(!ignore);
    assert!(!merge);
    let (tags, _, _) = apply_rules("plain", None, None, "text", &rules);
    assert!(tags.is_empty());
}

#[test]
fn app_ignore_rule_and_invalid_pattern() {
    let rules = vec![
        rule("(unclosed", "text", "tag", Some("never")),
        rule("^Password", "app", "ignore", None),
        rule("secret", "text", "tag", Some("s1")),
        rule("code", "type", "merge", None),
        rule("secret", "text", "tag", Some("s2")),
    ];
    let (tags, ignore, merge) = apply_rules("my secret", None, Some("Password Manager"), "text", &rules);
    assert_eq!(tags, vec!["s1".to_string(), "s2".to_string()]);
    assert!(ignore);
    assert!(!merge);
    let (_, ignore, merge) = apply_rules("x;\n{", None, Some("Editor"), "code", &rules);
    assert!(!ignore);
    assert!(merge);
    let (_, ignore, _) = apply_rules("x", None, None, "text", &rules);
    assert!(!ignore);
}

#[test]
fn combine_uses_fired_flags() {
    let rules = vec![
        rule("a", "text", "tag", Some("one")),
        rule("b", "text", "tag", None),
        rule("c", "text", "unknown", Some("x")),
        rule("d", "text", "tag", Some("two")),
    ];
    let (tags, ignore, merge) = combine_rule_matches(&rules, &vec![true, true, true, false]);
    assert_eq!(tags, vec!["one".to_string()]);
    assert!(!ignore && !merge);
}

#[test]
fn screenshot_by_size_without_title() {
    assert!(is_probable_screenshot(1920, 1080, None));
    assert!(is_probable_screenshot(700, 700, None));
    assert!(!is_probable_screenshot(200, 200, None));
    assert!(!is_probable_screenshot(799, 500, None));
    assert!(size_suggests_screenshot(800, 600));
    assert!(!size_suggests_screenshot(1000, 399));
    assert!(size_suggests_screenshot(4_000_000_000, 4_000_000_000));
}

#[test]
fn screenshot_by_window_title() {
    assert!(is_probable_screenshot(200, 200, Some("Snipping Tool")));
    assert!(is_probable_screenshot(200, 200, Some("Ferramenta de Recorte")));
    assert!(!is_probable_screenshot(200, 200, Some("Notepad")));
    assert!(is_snipping_window_title("greenshot editor"));
    assert!(!is_snipping_window_title("Greenshot editor"));
    assert!(!is_snipping_window_title("text editor"));
}

#[test]
fn snip_marker_lasts_six_seconds() {
    let mut t = SnipTracker::new(100_000);
    assert!(!t.recent(100_000));
    t.observe_title(Some("Notepad"), 100_500);
    assert!(!t.recent(100_500));
    t.observe_title(Some("ShareX - region"), 101_000);
    assert!(t.recent(107_000));
    assert!(!t.recent(107_001));
    t.observe_title(None, 108_000);
    assert!(!t.recent(108_000));
}

#[test]
fn no_window_introspection_here() {
    assert_eq!(clipnotes::screenshot::get_active_window_info(), (None, None));
}

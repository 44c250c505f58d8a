use clipnotes::pipeline::{capture_id_for, merge_tags, CaptureConfig, CaptureState, TextOutcome};
use clipnotes::{ClipboardHistory, Rule};

fn config(min_text_length: usize, rules: Vec<Rule>) -> CaptureConfig {
    CaptureConfig {
        min_text_length,
        dedup_window_minutes: 3,
        persistence_enabled: true,
        monitoring_enabled: true,
        rules,
    }
}

#[test]
fn same_text_twice_is_one_mutation() {
    let mut st = CaptureState::new(1_000_000);
    let mut h = ClipboardHistory::new(50).unwrap();
    let cfg = config(8, Vec::new());
    let r1 = st.on_text(&mut h, &cfg, "  some copied text  ", 1000, None, None);
    assert_eq!(r1, TextOutcome::Stored);
    let r2 = st.on_text(&mut h, &cfg, "  some copied text  ", 1500, None, None);
    assert_eq!(r2, TextOutcome::Unchanged);
    assert_eq!(h.list().len(), 1);
    let e = &h.list()[0];
    assert_eq!(e.text, "some copied text");
    assert_eq!(e.id, "clip_1000");
    assert_eq!(e.capture_type, "text");
    assert!(!e.pinned);
    assert_eq!(e.timestamp, 1000);
    assert!(r2.notification("x").is_none());
    assert!(!r2.persists(&cfg));
    assert!(r1.persists(&cfg));
}

#[test]
fn empty_text_is_unchanged() {
    let mut st = CaptureState::new(1_000_000);
    let mut h = ClipboardHistory::new(50).unwrap();
    let cfg = config(8, Vec::new());
    assert_eq!(st.on_text(&mut h, &cfg, "", 1000, None, None), TextOutcome::Unchanged);
    assert!(h.list().is_empty());
}

#[test]
fn short_text_dropped_short_link_kept() {
    let mut st = CaptureState::new(1_000_000);
    let mut h = ClipboardHistory::new(50).unwrap();
    let cfg = config(8, Vec::new());
    assert_eq!(st.on_text(&mut h, &cfg, "hello", 1000, None, None), TextOutcome::TooShort);
    assert!(h.list().is_empty());
    assert_eq!(st.on_text(&mut h, &cfg, "ab:cd", 2000, None, None), TextOutcome::Stored);
    assert_eq!(h.list().len(), 1);
    assert_eq!(h.list()[0].capture_type, "link");
    assert_eq!(h.list()[0].source_url, Some("ab:cd".to_string()));
}

#[test]
fn link_capture_gets_rule_and_domain_tags() {
    let mut st = CaptureState::new(1_000_000);
    let mut h = ClipboardHistory::new(50).unwrap();
    let rules = vec![Rule {
        pattern: "^https://github\\.com".to_string(),
        field: "url".to_string(),
        action: "tag".to_string(),
        tag: Some("github".to_string()),
    }];
    let cfg = config(8, rules);
    let out = st.on_text(&mut h, &cfg, "https://github.com/owner/repo", 1000, Some("Browser".to_string()), Some("firefox".to_string()));
    assert_eq!(out, TextOutcome::Stored);
    let e = &h.list()[0];
    assert_eq!(e.tags, vec!["github".to_string()]);
    assert_eq!(e.source_app, Some("firefox".to_string()));
    assert_eq!(e.window_title, Some("Browser".to_string()));
    assert!(e.content_hash.is_some());
}

#[test]
fn ignore_rule_on_app_suppresses_capture() {
    let mut st = CaptureState::new(1_000_000);
    let mut h = ClipboardHistory::new(50).unwrap();
    let rules = vec![Rule {
        pattern: "^KeePass".to_string(),
        field: "app".to_string(),
        action: "ignore".to_string(),
        tag: None,
    }];
    let cfg = config(8, rules);
    let out = st.on_text(&mut h, &cfg, "hunter2 password", 1000, None, Some("KeePassXC".to_string()));
    assert_eq!(out, TextOutcome::Ignored);
    assert!(h.list().is_empty());
    assert!(out.notification("hunter2 password").is_none());
    assert!(!out.persists(&cfg));
    st.on_text(&mut h, &cfg, "something else entirely", 1500, None, None);
    let out = st.on_text(&mut h, &cfg, "hunter2 password", 2000, None, Some("Editor".to_string()));
    assert_eq!(out, TextOutcome::Stored);
    assert_eq!(h.list().len(), 2);
    assert_eq!(h.list()[0].timestamp, 2000);
}

#[test]
fn own_copy_is_not_recaptured() {
    let mut st = CaptureState::new(1_000_000);
    let mut h = ClipboardHistory::new(50).unwrap();
    let cfg = config(8, Vec::new());
    st.mark_internal_copy("restored entry text");
    let out = st.on_text(&mut h, &cfg, "restored entry text", 1000, None, None);
    assert_eq!(out, TextOutcome::FromApp);
    assert!(h.list().is_empty());
    let n = out.notification("restored entry text").unwrap();
    assert!(n.from_app);
    assert_eq!(n.text, "restored entry text");
}

#[test]
fn capture_ids_are_decimal_millis() {
    assert_eq!(capture_id_for(1234), "clip_1234");
    assert_eq!(capture_id_for(0), "clip_0");
    assert_eq!(capture_id_for(-5), "clip_-5");
}

#[test]
fn large_image_is_announced_once() {
    let mut st = CaptureState::new(1_000_000);
    let rgba = vec![0u8; 800 * 600 * 4];
    let p = st.on_image(800, 600, &rgba, None, 1_000_000).unwrap();
    assert!(p.data_url.starts_with("data:image/png;base64,iVBORw0KGgo"));
    assert_eq!((p.width, p.height), (800, 600));
    assert!(st.on_image(800, 600, &rgba, None, 1_000_100).is_none());
}

#[test]
fn small_image_needs_a_screenshot_tool() {
    let mut st = CaptureState::new(1_000_000);
    let rgba = vec![7u8; 200 * 200 * 4];
    assert!(st.on_image(200, 200, &rgba, None, 1_000_000).is_none());
    let rgba2 = vec![8u8; 200 * 200 * 4];
    assert!(st.on_image(200, 200, &rgba2, Some("Snipping Tool"), 1_000_500).is_some());
    st.observe_window(Some("Snip & Sketch"), 1_001_000);
    let rgba3 = vec![9u8; 200 * 200 * 4];
    assert!(st.on_image(200, 200, &rgba3, Some("Paint"), 1_005_000).is_some());
    let rgba4 = vec![10u8; 200 * 200 * 4];
    assert!(st.on_image(200, 200, &rgba4, Some("Paint"), 1_010_000).is_none());
}

#[test]
fn merged_tags_hold_each_tag_once() {
    let a = vec!["x".to_string(), "github".to_string(), "x".to_string()];
    let b = vec!["github".to_string(), "y".to_string()];
    assert_eq!(merge_tags(a, b), vec!["x".to_string(), "github".to_string(), "y".to_string()]);
    assert!(merge_tags(Vec::new(), Vec::new()).is_empty());
}

#[test]
fn link_tag_not_repeated_when_rule_adds_it() {
    let mut st = CaptureState::new(1_000_000);
    let mut h = ClipboardHistory::new(50).unwrap();
    let rules = vec![Rule {
        pattern: "rust".to_string(),
        field: "text".to_string(),
        action: "tag".to_string(),
        tag: Some("lang".to_string()),
    }];
    let cfg = config(8, rules);
    st.on_text(&mut h, &cfg, "https://docs.rs/rust-thing", 1000, None, None);
    assert_eq!(h.list()[0].tags, vec!["lang".to_string(), "rust-docs".to_string()]);
}

#[test]
fn image_with_wrong_pixel_length_is_passed_over() {
    let mut st = CaptureState::new(1_000_000);
    let short = vec![0u8; 10];
    assert!(st.on_image(800, 600, &short, None, 1_000_000).is_none());
    assert!(st.on_image(u32::MAX, u32::MAX, &[], None, 1_000_000).is_none());
    let rgba = vec![0u8; 800 * 600 * 4];
    assert!(st.on_image(800, 600, &rgba, None, 1_000_100).is_some());
}

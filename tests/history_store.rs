use clipnotes::history::{dedup_entries, enforce_history_order_and_limit, sort_history};
use clipnotes::{compute_text_hash, ClipboardHistory, ClipboardHistoryEntry, HistoryError};

const MINUTE: i64 = 60_000;

fn entry(id: &str, text: &str, pinned: bool, timestamp: i64) -> ClipboardHistoryEntry {
    ClipboardHistoryEntry {
        id: id.to_string(),
        text: text.to_string(),
        pinned,
        timestamp,
        source_app: None,
        window_title: None,
        source_url: None,
        capture_type: "text".to_string(),
        tags: Vec::new(),
        content_hash: Some(compute_text_hash(text)),
    }
}

fn ids(h: &ClipboardHistory) -> Vec<String> {
    h.list().iter().map(|e| e.id.clone()).collect()
}

#[test]
fn repeat_within_window_replaces() {
    let mut h = ClipboardHistory::new(50).unwrap();
    h.insert(entry("c0", "content C", false, 0), 0, 3);
    h.insert(entry("c1", "content C", false, MINUTE), MINUTE, 3);
    assert_eq!(ids(&h), vec!["c1".to_string()]);
    assert_eq!(h.list()[0].timestamp, MINUTE);
}

#[test]
fn repeat_after_window_keeps_only_newest() {
    let mut h = ClipboardHistory::new(50).unwrap();
    h.insert(entry("c0", "content C", false, 0), 0, 3);
    h.insert(entry("c5", "content C", false, 5 * MINUTE), 5 * MINUTE, 3);
    assert_eq!(h.list().len(), 1);
    assert_eq!(ids(&h), vec!["c5".to_string()]);
}

#[test]
fn capacity_evicts_oldest_unpinned() {
    let mut h = ClipboardHistory::new(2).unwrap();
    h.insert(entry("a", "first entry", false, 1), 1, 3);
    h.insert(entry("b", "second entry", false, 2), 2, 3);
    h.insert(entry("c", "third entry", false, 3), 3, 3);
    assert_eq!(ids(&h), vec!["c".to_string(), "b".to_string()]);
}

#[test]
fn pinning_protects_from_eviction() {
    let mut h = ClipboardHistory::new(2).unwrap();
    h.insert(entry("a", "first entry", false, 1), 1, 3);
    h.insert(entry("b", "second entry", false, 2), 2, 3);
    assert_eq!(h.set_pinned(&"a".to_string(), true), Ok(()));
    h.insert(entry("c", "third entry", false, 3), 3, 3);
    assert_eq!(ids(&h), vec!["a".to_string(), "c".to_string(), "b".to_string()]);
}

#[test]
fn pinned_first_then_newest() {
    let h = ClipboardHistory::from_entries(
        vec![entry("A", "alpha", true, 1), entry("B", "bravo", false, 5), entry("C", "charlie", true, 2)],
        50,
    )
    .unwrap();
    assert_eq!(ids(&h), vec!["C".to_string(), "A".to_string(), "B".to_string()]);
}

#[test]
fn zero_limit_is_refused() {
    assert!(matches!(ClipboardHistory::new(0), Err(HistoryError::InvalidLimit)));
    let mut h = ClipboardHistory::new(3).unwrap();
    h.insert(entry("a", "first entry", false, 1), 1, 3);
    assert_eq!(h.set_limit(0), Err(HistoryError::InvalidLimit));
    assert_eq!(h.limit(), 3);
    assert_eq!(h.list().len(), 1);
}

#[test]
fn lowering_the_limit_trims() {
    let mut h = ClipboardHistory::new(5).unwrap();
    for i in 0..4 {
        h.insert(entry(&format!("e{}", i), &format!("entry number {}", i), false, i), i, 3);
    }
    assert_eq!(h.set_limit(2), Ok(()));
    assert_eq!(h.limit(), 2);
    assert_eq!(ids(&h), vec!["e3".to_string(), "e2".to_string()]);
}

#[test]
fn unknown_ids_are_reported() {
    let mut h = ClipboardHistory::new(5).unwrap();
    h.insert(entry("a", "first entry", false, 1), 1, 3);
    assert_eq!(h.delete(&"zzz".to_string()), Err(HistoryError::NotFound));
    assert_eq!(h.set_pinned(&"zzz".to_string(), true), Err(HistoryError::NotFound));
    assert_eq!(h.list().len(), 1);
    assert_eq!(h.delete(&"a".to_string()), Ok(()));
    assert!(h.list().is_empty());
}

#[test]
fn clear_keeps_pinned_on_request() {
    let mut h = ClipboardHistory::new(5).unwrap();
    h.insert(entry("a", "first entry", false, 1), 1, 3);
    h.insert(entry("b", "second entry", false, 2), 2, 3);
    h.set_pinned(&"a".to_string(), true).unwrap();
    h.clear(true);
    assert_eq!(ids(&h), vec!["a".to_string()]);
    h.clear(false);
    assert!(h.list().is_empty());
}

#[test]
fn unpinning_moves_entry_back() {
    let mut h = ClipboardHistory::new(5).unwrap();
    h.insert(entry("a", "first entry", false, 1), 1, 3);
    h.insert(entry("b", "second entry", false, 2), 2, 3);
    h.set_pinned(&"a".to_string(), true).unwrap();
    assert_eq!(ids(&h), vec!["a".to_string(), "b".to_string()]);
    h.set_pinned(&"a".to_string(), false).unwrap();
    assert_eq!(ids(&h), vec!["b".to_string(), "a".to_string()]);
}

#[test]
fn normalisation_pass_dedups_by_hash_then_text() {
    let mut legacy = entry("old", "Same Text", false, 1);
    legacy.content_hash = None;
    let mut legacy2 = entry("old2", "Same Text", false, 0);
    legacy2.content_hash = None;
    let v = vec![entry("n1", "hello  world", false, 10), entry("n2", "Hello World", false, 20), legacy, legacy2];
    let d = dedup_entries(v);
    let got: Vec<&str> = d.iter().map(|e| e.id.as_str()).collect();
    assert_eq!(got, vec!["n1", "old"]);
}

#[test]
fn sort_is_stable_for_ties() {
    let v = vec![entry("x", "x1", false, 5), entry("y", "y1", false, 5), entry("p", "pin1", true, 1), entry("z", "z1", false, 9)];
    let s = sort_history(v);
    let got: Vec<&str> = s.iter().map(|e| e.id.as_str()).collect();
    assert_eq!(got, vec!["p", "z", "x", "y"]);
}

#[test]
fn enforce_keeps_all_pinned_beyond_limit() {
    let mut v = vec![
        entry("pin1", "one", true, 1),
        entry("free1", "two", false, 2),
        entry("pin2", "three", true, 3),
        entry("free2", "four", false, 4),
        entry("pin3", "five", true, 5),
    ];
    enforce_history_order_and_limit(&mut v, 1);
    let got: Vec<&str> = v.iter().map(|e| e.id.as_str()).collect();
    assert_eq!(got, vec!["pin3", "pin2", "pin1", "free1"]);
}

#[test]
fn normalising_twice_changes_nothing() {
    let mut v = vec![
        entry("a", "alpha", false, 3),
        entry("b", "alpha", true, 9),
        entry("c", "gamma", true, 1),
        entry("d", "delta", false, 7),
        entry("e", "eps", false, 8),
    ];
    enforce_history_order_and_limit(&mut v, 1);
    let once: Vec<String> = v.iter().map(|e| e.id.clone()).collect();
    enforce_history_order_and_limit(&mut v, 1);
    let twice: Vec<String> = v.iter().map(|e| e.id.clone()).collect();
    assert_eq!(once, vec!["c".to_string(), "a".to_string()]);
    assert_eq!(once, twice);
}

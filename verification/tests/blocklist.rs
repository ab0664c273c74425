use std::time::Instant;

use dns_blocker::blocklist::{next_update_delay, Blocklist, DEFAULT_UPDATE_FREQ, DEFAULT_URL};
use dns_blocker::domain_set::DomainSet;

fn domains(b: &Blocklist, names: &[&str]) -> Vec<bool> {
    names.iter().map(|n| b.check(n)).collect()
}

#[test]
fn new_blocklist_blocks_nothing() {
    let b = Blocklist::new();
    assert_eq!(b.update_freq, DEFAULT_UPDATE_FREQ);
    assert_eq!(b.update_freq, 24 * 60 * 60);
    assert_eq!(b.url, DEFAULT_URL);
    assert!(!b.check("example.com"));
    assert!(b.user_added.as_slice().is_empty());
    assert!(b.user_removed.as_slice().is_empty());
}

#[test]
fn update_reads_lines_and_skips_comments() {
    let mut b = Blocklist::new();
    b.update_from_text("# a comment\nads.example\r\ntracker.example\nbad#entry\nlast.example");
    assert_eq!(
        domains(&b, &["ads.example", "tracker.example", "last.example", "bad#entry", "# a comment", "ads.example\r"]),
        vec![true, true, true, false, false, false]
    );
}

#[test]
fn update_keeps_empty_lines_and_lone_carriage_returns() {
    let mut b = Blocklist::new();
    b.update_from_text("a\n\nb\r\rc\nd\r");
    assert!(b.check(""));
    assert!(b.check("a"));
    assert!(b.check("b\r\rc"));
    assert!(b.check("d\r"));
    assert!(!b.check("d"));
}

#[test]
fn update_of_empty_text_blocks_nothing() {
    let mut b = Blocklist::new();
    b.update_from_text("x.example\n");
    assert!(b.check("x.example"));
    assert!(!b.check(""));
    b.update_from_text("");
    assert!(!b.check("x.example"));
    assert!(!b.check(""));
}

#[test]
fn update_replaces_previous_list() {
    let mut b = Blocklist::new();
    b.update_from_text("old.example\n");
    b.update_from_text("new.example\n");
    assert!(!b.check("old.example"));
    assert!(b.check("new.example"));
}

#[test]
fn overrides_survive_update() {
    let mut b = Blocklist::new();
    b.update_from_text("listed.example\nallowed.example\n");
    b.block_domain("mine.example".to_string());
    b.unblock_domain("allowed.example".to_string());
    assert!(b.check("mine.example"));
    assert!(!b.check("allowed.example"));
    b.update_from_text("listed.example\nallowed.example\nother.example\n");
    assert_eq!(
        domains(&b, &["listed.example", "allowed.example", "other.example", "mine.example"]),
        vec![true, false, true, true]
    );
}

#[test]
fn block_then_unblock_moves_between_overrides() {
    let mut b = Blocklist::new();
    b.block_domain("x.example".to_string());
    assert_eq!(b.user_added.as_slice(), &["x.example".to_string()]);
    assert!(b.user_removed.as_slice().is_empty());
    b.unblock_domain("x.example".to_string());
    assert!(b.user_added.as_slice().is_empty());
    assert_eq!(b.user_removed.as_slice(), &["x.example".to_string()]);
    assert!(!b.check("x.example"));
    b.block_domain("x.example".to_string());
    b.block_domain("x.example".to_string());
    assert_eq!(b.user_added.as_slice().len(), 1);
    assert!(b.check("x.example"));
}

#[test]
fn from_config_fills_in_defaults() {
    let now = Instant::now();
    let b = Blocklist::from_config(60, now, None, None, None);
    assert_eq!(b.update_freq, 60);
    assert_eq!(b.last_update, now);
    assert_eq!(b.url, DEFAULT_URL);
    assert!(b.user_added.as_slice().is_empty());
    assert!(b.user_removed.as_slice().is_empty());
    assert!(!b.check("a"));
}

#[test]
fn from_config_keeps_given_values_once() {
    let b = Blocklist::from_config(
        5,
        Instant::now(),
        Some(vec!["a".to_string(), "b".to_string(), "a".to_string()]),
        Some(vec!["c".to_string()]),
        Some("http://list".to_string()),
    );
    assert_eq!(b.user_added.as_slice(), &["a".to_string(), "b".to_string()]);
    assert_eq!(b.user_removed.as_slice(), &["c".to_string()]);
    assert_eq!(b.url, "http://list");
}

#[test]
fn apply_config_keeps_domains() {
    let mut b = Blocklist::new();
    b.update_from_text("kept.example\n");
    let loaded = Blocklist::from_config(10, Instant::now(), Some(vec!["z".to_string()]), None, Some("u".to_string()));
    b.apply_config(loaded);
    assert_eq!(b.update_freq, 10);
    assert_eq!(b.url, "u");
    assert!(b.check("kept.example"));
    assert!(!b.check("z"));
    assert_eq!(b.user_added.as_slice(), &["z".to_string()]);
}

#[test]
fn next_update_delay_retries_after_a_minute() {
    assert_eq!(next_update_delay(true, 3600), 3600);
    assert_eq!(next_update_delay(false, 3600), 60);
}

#[test]
fn domain_set_keeps_each_name_once() {
    let mut s = DomainSet::new();
    assert!(s.insert("a".to_string()));
    assert!(!s.insert("a".to_string()));
    assert!(s.insert("b".to_string()));
    assert!(s.contains("a"));
    assert!(s.remove("a"));
    assert!(!s.remove("a"));
    assert!(!s.contains("a"));
    assert_eq!(s.as_slice(), &["b".to_string()]);
}

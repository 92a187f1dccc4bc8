use posixfy_bridge::fs::operations::{sort_by_name, DirEntry};
use posixfy_bridge::fs::watcher::{diff_snapshots, snapshot_from, FileSnapshot, FileWatcher, SnapshotEntry};

fn snap(name: &str, is_dir: bool, size: u64, modified: i64) -> SnapshotEntry {
    SnapshotEntry { name: name.to_string(), snapshot: FileSnapshot { is_dir, size, modified } }
}

#[test]
fn diff_reports_created_modified_deleted() {
    let old = vec![snap("a", false, 1, 10), snap("b", false, 2, 20), snap("d", true, 0, 5)];
    let new = vec![snap("a", false, 1, 10), snap("b", false, 3, 20), snap("c", false, 4, 40)];
    let events = diff_snapshots(&old, &new);
    assert_eq!(events.len(), 3);
    assert_eq!(events[0].event_type, "created");
    assert_eq!(events[0].name, "c");
    assert_eq!(events[0].size, 4);
    assert_eq!(events[1].event_type, "modified");
    assert_eq!(events[1].name, "b");
    assert_eq!(events[1].size, 3);
    assert_eq!(events[2].event_type, "deleted");
    assert_eq!(events[2].name, "d");
    assert!(events[2].is_dir);
    assert_eq!(events[2].size, 0);
    assert_eq!(events[2].modified, 0);
}

#[test]
fn diff_of_equal_snapshots_is_empty() {
    let s = vec![snap("a", false, 1, 10)];
    assert!(diff_snapshots(&s, &s).is_empty());
}

#[test]
fn watcher_counts_subscribers() {
    let mut w = FileWatcher::new();
    assert!(w.subscribe("/d"));
    assert!(!w.subscribe("/d"));
    assert_eq!(w.subscriber_count("/d"), 2);
    assert!(!w.unsubscribe("/d"));
    assert!(w.unsubscribe("/d"));
    assert_eq!(w.subscriber_count("/d"), 0);
    assert!(!w.unsubscribe("/d"));
}

fn entry(name: &str) -> DirEntry {
    DirEntry { name: name.to_string(), is_dir: false, size: 0, modified: 0 }
}

#[test]
fn listing_sorted_by_name() {
    let sorted = sort_by_name(vec![entry("b"), entry("a10"), entry("B"), entry("a"), entry("\u{e9}")]);
    let names: Vec<&str> = sorted.iter().map(|e| e.name.as_str()).collect();
    assert_eq!(names, vec!["B", "a", "a10", "b", "\u{e9}"]);
}

#[test]
fn snapshot_records_each_name_once() {
    let s = snapshot_from(vec![snap("a", false, 1, 1), snap("b", false, 2, 2), snap("a", true, 3, 3)]);
    assert_eq!(s.len(), 2);
    assert_eq!(s[0].name, "a");
    assert_eq!(s[0].snapshot, FileSnapshot { is_dir: true, size: 3, modified: 3 });
    assert_eq!(s[1].name, "b");
}

#[test]
fn listing_keeps_order_of_equal_names() {
    let mut first = entry("x");
    first.size = 1;
    let mut second = entry("x");
    second.size = 2;
    let sorted = sort_by_name(vec![entry("y"), first, entry("a"), second]);
    let sizes: Vec<(String, u64)> = sorted.iter().map(|e| (e.name.clone(), e.size)).collect();
    assert_eq!(
        sizes,
        vec![("a".to_string(), 0), ("x".to_string(), 1), ("x".to_string(), 2), ("y".to_string(), 0)]
    );
}

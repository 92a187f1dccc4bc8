use posixfy_bridge::fs::lock::{LockManager, LockType};

fn test_path() -> String {
    "/test/file.txt".to_string()
}

#[test]
fn acquire_and_release_read_lock() {
    let mut mgr = LockManager::new();
    let path = test_path();

    let mut guard = mgr.acquire(&path, 1000, LockType::Read).unwrap();
    guard.release(&mut mgr);
    // After release, the path entry should be removed entirely
    assert!(!mgr.is_locked(&path));
}

#[test]
fn acquire_and_release_write_lock() {
    let mut mgr = LockManager::new();
    let path = test_path();

    let mut guard = mgr.acquire(&path, 1000, LockType::Write).unwrap();
    guard.release(&mut mgr);
    assert!(!mgr.is_locked(&path));
}

#[test]
fn multiple_reads_from_different_users_succeed() {
    let mut mgr = LockManager::new();
    let path = test_path();

    let _g1 = mgr.acquire(&path, 1000, LockType::Read).unwrap();
    let _g2 = mgr.acquire(&path, 1001, LockType::Read).unwrap();
    let _g3 = mgr.acquire(&path, 1002, LockType::Read).unwrap();

    // Verify all three entries are present
    let entries = mgr.entries(&path);
    assert_eq!(entries.len(), 3);
}

#[test]
fn write_lock_conflicts_with_read_from_different_user() {
    let mut mgr = LockManager::new();
    let path = test_path();

    let _g = mgr.acquire(&path, 1000, LockType::Read).unwrap();

    let result = mgr.acquire(&path, 1001, LockType::Write);
    assert!(result.is_err());
    assert!(result.err().unwrap().contains("locked by uid 1000"));
}

#[test]
fn read_lock_conflicts_with_write_from_different_user() {
    let mut mgr = LockManager::new();
    let path = test_path();

    let _g = mgr.acquire(&path, 1000, LockType::Write).unwrap();

    let result = mgr.acquire(&path, 1001, LockType::Read);
    assert!(result.is_err());
    let err_msg = result.err().unwrap();
    assert!(err_msg.contains("locked by uid 1000"));
    assert!(err_msg.contains("write"));
}

#[test]
fn write_lock_conflicts_with_write_from_different_user() {
    let mut mgr = LockManager::new();
    let path = test_path();

    let _g = mgr.acquire(&path, 1000, LockType::Write).unwrap();

    let result = mgr.acquire(&path, 1001, LockType::Write);
    assert!(result.is_err());
    assert!(result.err().unwrap().contains("locked by uid 1000"));
}

#[test]
fn same_user_can_reacquire_read_as_write() {
    let mut mgr = LockManager::new();
    let path = test_path();

    // Acquire read, then release and re-acquire as write
    {
        let mut g = mgr.acquire(&path, 1000, LockType::Read).unwrap();
        g.release(&mut mgr);
    }
    let g2 = mgr.acquire(&path, 1000, LockType::Write).unwrap();
    assert_eq!(g2.is_released(), false);

    // Should have exactly one entry
    let entries = mgr.entries(&path);
    assert_eq!(entries.len(), 1);
    assert_eq!(entries[0].lock_type, LockType::Write);
}

#[test]
fn same_user_can_reacquire_write_as_read() {
    let mut mgr = LockManager::new();
    let path = test_path();

    // Acquire write, then release and re-acquire as read
    {
        let mut g = mgr.acquire(&path, 1000, LockType::Write).unwrap();
        g.release(&mut mgr);
    }
    let g2 = mgr.acquire(&path, 1000, LockType::Read).unwrap();
    assert_eq!(g2.is_released(), false);

    let entries = mgr.entries(&path);
    assert_eq!(entries.len(), 1);
    assert_eq!(entries[0].lock_type, LockType::Read);
}

#[test]
fn release_only_removes_specified_user() {
    let mut mgr = LockManager::new();
    let path = test_path();

    let mut g1 = mgr.acquire(&path, 1000, LockType::Read).unwrap();
    let _g2 = mgr.acquire(&path, 1001, LockType::Read).unwrap();

    g1.release(&mut mgr);

    // uid 1001 should still hold the lock
    let entries = mgr.entries(&path);
    assert_eq!(entries.len(), 1);
    assert_eq!(entries[0].uid, 1001);
}

#[test]
fn release_cleans_up_empty_entry() {
    let mut mgr = LockManager::new();
    let path = test_path();

    let mut guard = mgr.acquire(&path, 1000, LockType::Read).unwrap();
    guard.release(&mut mgr);

    // The table entry should be removed when the last lock is released
    assert!(!mgr.is_locked(&path));
}

#[test]
fn release_nonexistent_lock_is_noop() {
    let mut mgr = LockManager::new();
    let path = test_path();

    let mut guard = mgr.acquire(&path, 1000, LockType::Read).unwrap();
    guard.release(&mut mgr);
    guard.release(&mut mgr); // double release should not panic
}

#[test]
fn different_paths_are_independent() {
    let mut mgr = LockManager::new();
    let path_a = "/test/a.txt".to_string();
    let path_b = "/test/b.txt".to_string();

    let _g1 = mgr.acquire(&path_a, 1000, LockType::Write).unwrap();
    // Different path, different user -- should succeed even though
    // user 1001 could not write-lock path_a
    let _g2 = mgr.acquire(&path_b, 1001, LockType::Write).unwrap();
}

#[test]
fn guard_auto_releases_on_drop() {
    let mut mgr = LockManager::new();
    let path = test_path();

    {
        let mut guard = mgr.acquire(&path, 1000, LockType::Write).unwrap();
        // Lock is held
        assert!(mgr.acquire(&path, 1001, LockType::Read).is_err());
        // The library's guard has no `Drop`: the release that dropping the
        // guard made is made here, explicitly, at the end of its scope
        guard.release(&mut mgr);
    }
    // Guard released, now another user can acquire
    assert!(mgr.acquire(&path, 1001, LockType::Write).is_ok());
}

#[test]
fn explicit_release_then_drop_is_safe() {
    let mut mgr = LockManager::new();
    let path = test_path();

    let mut guard = mgr.acquire(&path, 1000, LockType::Write).unwrap();
    guard.release(&mut mgr);
    // Releasing again after an explicit release changes nothing
    guard.release(&mut mgr);
    drop(guard);

    // Another user can acquire the lock
    assert!(mgr.acquire(&path, 1001, LockType::Write).is_ok());
}

#[test]
fn expired_lock_does_not_block() {
    let mut mgr = LockManager::new();
    let path = test_path();

    let _g = mgr.acquire_at(&path, 1000, LockType::Write, 0).unwrap();
    // Still in force just before five minutes
    assert!(mgr.acquire_at(&path, 1001, LockType::Read, 299_999_999_999).is_err());
    // Expired at five minutes: the other user's lock replaces it
    assert!(mgr.acquire_at(&path, 1001, LockType::Write, 300_000_000_000).is_ok());
    let entries = mgr.entries(&path);
    assert_eq!(entries.len(), 1);
    assert_eq!(entries[0].uid, 1001);
    assert_eq!(entries[0].acquired_at, 300_000_000_000);
    assert_eq!(entries[0].expires_at, 600_000_000_000);
}

#[test]
fn refused_lock_message_names_holder_and_kind() {
    let mut mgr = LockManager::new();
    let path = test_path();

    let _g = mgr.acquire_at(&path, 42, LockType::Read, 10).unwrap();
    let err = mgr.acquire_at(&path, 7, LockType::Write, 20).err().unwrap();
    assert_eq!(err, "file is locked by uid 42 (read)");
    // A refused request keeps the locks in force
    assert_eq!(mgr.entries(&path).len(), 1);
}

#[test]
fn write_lock_is_held_alone() {
    let mut mgr = LockManager::new();
    let path = test_path();

    let _r = mgr.acquire_at(&path, 5, LockType::Read, 0).unwrap();
    let _w = mgr.acquire_at(&path, 5, LockType::Write, 1).unwrap();
    let entries = mgr.entries(&path);
    assert_eq!(entries.len(), 1);
    assert_eq!(entries[0].lock_type, LockType::Write);
    assert!(mgr.acquire_at(&path, 6, LockType::Read, 2).is_err());
}

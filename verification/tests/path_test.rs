use posixfy_bridge::fs::path::{has_path_traversal, path_starts_with, resolve_new_path, resolve_path};
use posixfy_bridge::models::mount::MountPoint;

/// One mount point `docs` at `/srv/data`; canonical paths are written by hand.
fn mounts() -> Vec<MountPoint> {
    vec![MountPoint { name: "docs".to_string(), path: "/srv/data".to_string() }]
}

fn ok(s: &str) -> Result<String, String> {
    Ok(s.to_string())
}

#[test]
fn resolve_path_valid_file() {
    let req = resolve_path(&mounts(), "docs", "file.txt").ok().unwrap();
    assert_eq!(req.full_path, "/srv/data/file.txt");
    assert_eq!(req.mount_path, "/srv/data");
    let resolved = req.finish(ok("/srv/data/file.txt"), ok("/srv/data")).unwrap();
    assert!(resolved.ends_with("file.txt"));
}

#[test]
fn resolve_path_valid_subdir() {
    let req = resolve_path(&mounts(), "docs", "subdir").ok().unwrap();
    let resolved = req.finish(ok("/srv/data/subdir"), ok("/srv/data")).unwrap();
    assert!(resolved.ends_with("subdir"));
}

#[test]
fn resolve_path_with_leading_slash() {
    let req = resolve_path(&mounts(), "docs", "/file.txt").ok().unwrap();
    assert_eq!(req.full_path, "/srv/data/file.txt");
}

#[test]
fn resolve_path_dot_dot_rejected() {
    let result = resolve_path(&mounts(), "docs", "../etc/passwd");
    assert!(result.is_err());
    assert_eq!(result.err().unwrap(), "Path traversal not allowed");
}

#[test]
fn resolve_path_unknown_mount_returns_error() {
    let result = resolve_path(&mounts(), "unknown", "file.txt");
    assert!(result.is_err());
    assert_eq!(result.err().unwrap(), "Unknown mount point: unknown");
}

#[test]
fn resolve_path_nonexistent_file_returns_error() {
    let req = resolve_path(&mounts(), "docs", "nonexistent.txt").ok().unwrap();
    let result = req.finish(Err("No such file or directory (os error 2)".to_string()), ok("/srv/data"));
    assert_eq!(
        result.unwrap_err(),
        "Path resolution failed: No such file or directory (os error 2)"
    );
}

#[test]
fn resolve_path_mount_root_itself() {
    let req = resolve_path(&mounts(), "docs", "").ok().unwrap();
    assert_eq!(req.full_path, "/srv/data/");
    assert_eq!(req.finish(ok("/srv/data"), ok("/srv/data")).unwrap(), "/srv/data");
}

#[test]
fn resolve_path_outside_mount_after_canonicalize() {
    // A symbolic link inside the mount that points outside of it
    let req = resolve_path(&mounts(), "docs", "link").ok().unwrap();
    let result = req.finish(ok("/etc/passwd"), ok("/srv/data"));
    assert_eq!(result.unwrap_err(), "Path traversal not allowed");
    // A sibling directory whose name extends the mount's is outside too
    let req = resolve_path(&mounts(), "docs", "x").ok().unwrap();
    assert!(req.finish(ok("/srv/data2/x"), ok("/srv/data")).is_err());
}

#[test]
fn resolve_path_mount_error_reported() {
    let req = resolve_path(&mounts(), "docs", "a").ok().unwrap();
    let result = req.finish(ok("/srv/data/a"), Err("gone".to_string()));
    assert_eq!(result.unwrap_err(), "Mount point resolution failed: gone");
}

#[test]
fn resolve_new_path_non_existing_target() {
    let req = resolve_new_path(&mounts(), "docs", "new_file.txt").ok().unwrap();
    assert_eq!(req.parent, "/srv/data");
    assert_eq!(req.file_name.as_deref(), Some("new_file.txt"));
    let resolved = req.finish(ok("/srv/data"), ok("/srv/data")).unwrap();
    assert_eq!(resolved, "/srv/data/new_file.txt");
}

#[test]
fn resolve_new_path_in_existing_subdir() {
    let req = resolve_new_path(&mounts(), "docs", "subdir/new_file.txt").ok().unwrap();
    assert_eq!(req.parent, "/srv/data/subdir");
    let resolved = req.finish(ok("/srv/data/subdir"), ok("/srv/data")).unwrap();
    assert!(resolved.ends_with("new_file.txt"));
}

#[test]
fn resolve_new_path_dot_dot_rejected() {
    let result = resolve_new_path(&mounts(), "docs", "../outside.txt");
    assert!(result.is_err());
    assert_eq!(result.err().unwrap(), "Path traversal not allowed");
}

#[test]
fn resolve_new_path_unknown_mount() {
    let result = resolve_new_path(&mounts(), "unknown", "file.txt");
    assert!(result.is_err());
    assert!(result.err().unwrap().contains("Unknown mount point"));
}

#[test]
fn resolve_new_path_parent_must_exist() {
    let req = resolve_new_path(&mounts(), "docs", "nonexistent_dir/file.txt").ok().unwrap();
    assert_eq!(req.parent, "/srv/data/nonexistent_dir");
    let result = req.finish(Err("not found".to_string()), ok("/srv/data"));
    assert!(result.unwrap_err().contains("Parent path resolution failed"));
}

#[test]
fn resolve_new_path_trailing_slash_and_dot() {
    let req = resolve_new_path(&mounts(), "docs", "dir/name/./").ok().unwrap();
    assert_eq!(req.parent, "/srv/data/dir");
    assert_eq!(req.file_name.as_deref(), Some("name"));
}

#[test]
fn resolve_new_path_at_mount_root_leaves_mount() {
    let req = resolve_new_path(&mounts(), "docs", "/").ok().unwrap();
    // The joined path is the mount path itself: its parent is `/srv`
    assert_eq!(req.parent, "/srv");
    assert_eq!(req.file_name.as_deref(), Some("data"));
    let result = req.finish(ok("/srv"), ok("/srv/data"));
    assert_eq!(result.unwrap_err(), "Path traversal not allowed");
}

#[test]
fn resolve_new_path_root_mount_has_no_parent() {
    let root = vec![MountPoint { name: "all".to_string(), path: "/".to_string() }];
    let result = resolve_new_path(&root, "all", "");
    assert_eq!(result.err().unwrap(), "Invalid path");
}

#[test]
fn resolve_path_triple_dot_directory_not_rejected() {
    // "..." is a valid directory name, not a traversal
    let result = resolve_path(&mounts(), "docs", ".../file.txt");
    assert!(result.is_ok());
    assert!(!has_path_traversal(".../file.txt"));
}

#[test]
fn resolve_path_leading_dot_accepted() {
    // "./subdir" should resolve correctly
    let req = resolve_path(&mounts(), "docs", "./subdir").ok().unwrap();
    assert_eq!(req.full_path, "/srv/data/./subdir");
    assert!(req.finish(ok("/srv/data/subdir"), ok("/srv/data")).unwrap().ends_with("subdir"));
}

#[test]
fn traversal_detection_by_component() {
    assert!(has_path_traversal(".."));
    assert!(has_path_traversal("a/../b"));
    assert!(has_path_traversal("a/b/.."));
    assert!(has_path_traversal("/.."));
    assert!(!has_path_traversal("a..b/c"));
    assert!(!has_path_traversal("..a"));
    assert!(!has_path_traversal(""));
}

#[test]
fn starts_with_compares_components() {
    assert!(path_starts_with("/srv/data/a", "/srv/data"));
    assert!(path_starts_with("/srv/data", "/srv/data/"));
    assert!(path_starts_with("/srv//data/./a", "/srv/data"));
    assert!(!path_starts_with("/srv/database", "/srv/data"));
    assert!(!path_starts_with("srv/data", "/srv/data"));
    assert!(path_starts_with("/anything", "/"));
}

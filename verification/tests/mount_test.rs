use posixfy_bridge::models::mount::MountPoint;

#[test]
fn parse_all_empty_string_returns_empty_vec() {
    let result = MountPoint::parse_all("");
    assert!(result.is_empty());
}

#[test]
fn parse_all_single_mount() {
    let result = MountPoint::parse_all("docs:/data/docs");
    assert_eq!(result.len(), 1);
    assert_eq!(result[0].name, "docs");
    assert_eq!(result[0].path, "/data/docs");
}

#[test]
fn parse_all_multiple_mounts() {
    let result = MountPoint::parse_all("docs:/data/docs,photos:/data/photos");
    assert_eq!(result.len(), 2);
    assert_eq!(result[0].name, "docs");
    assert_eq!(result[0].path, "/data/docs");
    assert_eq!(result[1].name, "photos");
    assert_eq!(result[1].path, "/data/photos");
}

#[test]
fn parse_all_whitespace_handling() {
    let result = MountPoint::parse_all("  docs : /data/docs , photos : /data/photos  ");
    assert_eq!(result.len(), 2);
    assert_eq!(result[0].name, "docs");
    assert_eq!(result[0].path, "/data/docs");
    assert_eq!(result[1].name, "photos");
    assert_eq!(result[1].path, "/data/photos");
}

#[test]
fn parse_all_missing_colon_is_skipped() {
    let result = MountPoint::parse_all("invalid_entry");
    assert!(result.is_empty());
}

#[test]
fn parse_all_empty_name_is_skipped() {
    let result = MountPoint::parse_all(":/data/docs");
    assert!(result.is_empty());
}

#[test]
fn parse_all_empty_path_is_skipped() {
    let result = MountPoint::parse_all("docs:");
    assert!(result.is_empty());
}

#[test]
fn parse_all_mixed_valid_and_invalid() {
    let result =
        MountPoint::parse_all("docs:/data/docs,invalid_entry,:/empty_name,photos:/data/photos");
    assert_eq!(result.len(), 2);
    assert_eq!(result[0].name, "docs");
    assert_eq!(result[1].name, "photos");
}

#[test]
fn parse_all_path_keeps_later_colons() {
    let result = MountPoint::parse_all("media:/mnt/a:b, \u{3000}x\t:\u{a0}/y ");
    assert_eq!(result.len(), 2);
    assert_eq!(result[0].name, "media");
    assert_eq!(result[0].path, "/mnt/a:b");
    assert_eq!(result[1].name, "x");
    assert_eq!(result[1].path, "/y");
}

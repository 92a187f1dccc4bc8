use posixfy_bridge::api::fs::{
    byte_range, check_occ, page_fits, check_same_mount, download_reply, expected_mtime, expected_size,
    occ_requested, paginate, parse_range_header, path_or_root, require_path, sanitize_filename,
    upload_target, DownloadReply,
};
use posixfy_bridge::error::AppError;

#[test]
fn range_middle_of_file() {
    assert_eq!(parse_range_header("bytes=100-149", 200), Some((100, 149)));
}

#[test]
fn range_open_ended_runs_to_last_byte() {
    assert_eq!(parse_range_header("bytes=150-", 200), Some((150, 199)));
}

#[test]
fn range_end_past_file_is_cut() {
    assert_eq!(parse_range_header("bytes=10-10000", 50), Some((10, 49)));
}

#[test]
fn range_beyond_file_is_unsatisfiable() {
    assert_eq!(parse_range_header("bytes=9999-10000", 50), None);
}

#[test]
fn range_of_empty_file_is_unsatisfiable() {
    assert_eq!(parse_range_header("bytes=0-", 0), None);
    assert_eq!(parse_range_header("bytes=0-0", 0), None);
    match download_reply("/srv/data/empty", 0, Some("bytes=0-")) {
        DownloadReply::NotSatisfiable { content_range } => assert_eq!(content_range, "bytes */0"),
        _ => panic!("expected an unsatisfiable reply"),
    }
}

#[test]
fn range_malformed_is_unsatisfiable() {
    assert_eq!(parse_range_header("bytes=5", 50), None);
    assert_eq!(parse_range_header("items=1-2", 50), None);
    assert_eq!(parse_range_header("bytes=-5", 50), None);
    assert_eq!(parse_range_header("bytes=9-3", 50), None);
    assert_eq!(parse_range_header("bytes=+3-4", 50), Some((3, 4)));
    assert_eq!(parse_range_header("bytes=1-2-3", 50), None);
}

#[test]
fn download_range_returns_206() {
    let content: Vec<u8> = (0..200).map(|i| i as u8).collect();
    match download_reply("/srv/data/range/big.bin", 200, Some("bytes=100-149")) {
        DownloadReply::Partial { start, end, content_range, content_length, content_disposition } => {
            assert_eq!(content_length, 50);
            assert_eq!(content_range, "bytes 100-149/200");
            assert_eq!(content_disposition, "attachment; filename=\"big.bin\"");
            let body = byte_range(&content, start, end);
            assert_eq!(body.len(), 50);
            assert_eq!(body, &content[100..=149]);
        }
        _ => panic!("expected a partial reply"),
    }
}

#[test]
fn download_range_beyond_file_returns_416() {
    match download_reply("/srv/data/r416/small.bin", 50, Some("bytes=9999-10000")) {
        DownloadReply::NotSatisfiable { content_range } => {
            assert_eq!(content_range, "bytes */50");
        }
        _ => panic!("expected an unsatisfiable reply"),
    }
}

#[test]
fn download_no_range_returns_full_file() {
    match download_reply("/srv/data/full/full.bin", 17, None) {
        DownloadReply::Full { content_disposition } => {
            assert_eq!(content_disposition, "attachment; filename=\"full.bin\"");
        }
        _ => panic!("expected a full reply"),
    }
    match download_reply("/", 0, None) {
        DownloadReply::Full { content_disposition } => {
            assert_eq!(content_disposition, "attachment; filename=\"download\"");
        }
        _ => panic!("expected a full reply"),
    }
}

#[test]
fn upload_strips_directory_from_filename() {
    assert_eq!(sanitize_filename("../../etc/passwd").unwrap(), "passwd");
    let (name, rel) = upload_target(Some("san"), Some("../../etc/passwd")).ok().unwrap();
    assert_eq!(name, "passwd");
    assert_eq!(rel, "san/passwd");
}

#[test]
fn upload_rejects_oversized_filename() {
    let long_name = format!("{}.txt", "a".repeat(256));
    assert_eq!(sanitize_filename(&long_name).unwrap_err(), "Filename too long (max 255 bytes)");
    match upload_target(Some("long"), Some(&long_name)) {
        Err(AppError::BadRequest(m)) => assert_eq!(m, "Filename too long (max 255 bytes)"),
        _ => panic!("expected a bad request"),
    }
}

#[test]
fn filename_length_counts_bytes() {
    // 85 three-byte characters: 255 bytes, accepted; one more is too long
    let ok_name = "\u{4e2d}".repeat(85);
    assert!(sanitize_filename(&ok_name).is_ok());
    let long_name = "\u{4e2d}".repeat(86);
    assert!(sanitize_filename(&long_name).is_err());
}

#[test]
fn filename_without_name_is_invalid() {
    assert_eq!(sanitize_filename("..").unwrap_err(), "Invalid filename");
    assert_eq!(sanitize_filename("/").unwrap_err(), "Invalid filename");
    assert_eq!(sanitize_filename("").unwrap_err(), "Invalid filename");
    assert_eq!(sanitize_filename("dir/").unwrap(), "dir");
}

#[test]
fn upload_without_filename_is_unnamed() {
    let (name, rel) = upload_target(None, None).ok().unwrap();
    assert_eq!(name, "unnamed");
    assert_eq!(rel, "/unnamed");
}

#[test]
fn list_pagination_returns_correct_slice() {
    let entries: Vec<u32> = (0..15).collect();
    let (page, info) = paginate(entries.clone(), Some(1), Some(5));
    assert_eq!(info.total, 15);
    assert_eq!(info.page, 1);
    assert_eq!(info.limit, 5);
    assert_eq!(info.has_more, true);
    assert_eq!(page.len(), 5);

    let (page, info) = paginate(entries, Some(3), Some(5));
    assert_eq!(info.has_more, false);
    assert_eq!(page, vec![10, 11, 12, 13, 14]);
}

#[test]
fn list_pagination_limit_capped_at_maximum() {
    let entries: Vec<u32> = (0..5).collect();
    let (_, info) = paginate(entries, None, Some(10000));
    assert_eq!(info.limit, 1000);
}

#[test]
fn list_pagination_empty_directory() {
    let (page, info) = paginate(Vec::<u32>::new(), None, None);
    assert_eq!(info.total, 0);
    assert_eq!(page.len(), 0);
    assert_eq!(info.has_more, false);
    assert_eq!(info.page, 1);
    assert_eq!(info.limit, 100);
}

#[test]
fn list_pagination_page_past_end_and_zero() {
    let entries: Vec<u32> = (0..3).collect();
    let (page, info) = paginate(entries.clone(), Some(9), Some(2));
    assert!(page.is_empty());
    assert!(!info.has_more);
    let (page, info) = paginate(entries, Some(0), Some(0));
    assert_eq!(info.page, 1);
    assert_eq!(info.limit, 1);
    assert_eq!(page, vec![0]);
    assert!(info.has_more);
}

#[test]
fn occ_checks_mtime_then_size() {
    assert!(!occ_requested(None, None));
    assert!(check_occ(None, None, Some((1, 2))).is_ok());
    assert!(check_occ(Some(2), Some(1), Some((1, 2))).is_ok());
    assert!(check_occ(Some(5), Some(9), None).is_ok());
    match check_occ(Some(3), Some(9), Some((1, 2))) {
        Err(AppError::Conflict(m)) => {
            assert_eq!(m, "file has been modified since last read (mtime mismatch)")
        }
        _ => panic!("expected a conflict"),
    }
    match check_occ(None, Some(9), Some((1, 2))) {
        Err(AppError::Conflict(m)) => {
            assert_eq!(m, "file has been modified since last read (size mismatch)")
        }
        _ => panic!("expected a conflict"),
    }
}

#[test]
fn occ_headers_parse_as_numbers() {
    assert_eq!(expected_mtime(Some("-12")), Some(-12));
    assert_eq!(expected_mtime(Some("1700000000000")), Some(1_700_000_000_000));
    assert_eq!(expected_mtime(Some("12a")), None);
    assert_eq!(expected_mtime(None), None);
    assert_eq!(expected_size(Some("+7")), Some(7));
    assert_eq!(expected_size(Some("-7")), None);
    assert_eq!(expected_size(Some("18446744073709551616")), None);
}

#[test]
fn request_parameters_defaults() {
    assert_eq!(path_or_root(None), "/");
    assert_eq!(path_or_root(Some("a")), "a");
    match require_path(None) {
        Err(AppError::BadRequest(m)) => assert_eq!(m, "path is required"),
        _ => panic!("expected a bad request"),
    }
    assert_eq!(require_path(Some("x")).ok().unwrap(), "x");
    assert!(check_same_mount("test", "test").is_ok());
    match check_same_mount("a", "b") {
        Err(AppError::BadRequest(m)) => assert_eq!(m, "source and target mount must match"),
        _ => panic!("expected a bad request"),
    }
}

#[test]
fn page_offsets_fit_check() {
    assert!(page_fits(None, None));
    assert!(page_fits(Some(usize::MAX / 1000), Some(1000)));
    assert!(!page_fits(Some(usize::MAX), Some(2)));
}

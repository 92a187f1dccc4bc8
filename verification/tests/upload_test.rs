use posixfy_bridge::api::upload::{upload_start, upload_step, UploadAction, UploadEvent, UploadState};
use posixfy_bridge::error::AppError;

fn is_lock(a: &UploadAction) -> bool {
    matches!(a, UploadAction::Lock)
}

fn is_stat(a: &UploadAction) -> bool {
    matches!(a, UploadAction::Stat)
}

fn is_write(a: &UploadAction) -> bool {
    matches!(a, UploadAction::Write)
}

fn is_release(a: &UploadAction) -> bool {
    matches!(a, UploadAction::Release)
}

fn locked(mtime: Option<i64>, size: Option<u64>) -> (UploadState, UploadAction) {
    let (s, a) = upload_start(mtime, size);
    assert!(is_lock(&a));
    upload_step(s, UploadEvent::LockTaken(Ok(())))
}

#[test]
fn upload_refused_lock_is_conflict_without_release() {
    let (s, _) = upload_start(None, None);
    let (s, a) = upload_step(s, UploadEvent::LockTaken(Err("Path is locked".to_string())));
    match a {
        UploadAction::Finish(Err(AppError::Conflict(m))) => assert_eq!(m, "Path is locked"),
        _ => panic!("expected a conflict"),
    }
    let (_, a) = upload_step(s, UploadEvent::Released);
    assert!(matches!(a, UploadAction::Idle));
}

#[test]
fn upload_without_check_writes_then_releases() {
    let (s, a) = locked(None, None);
    assert!(is_write(&a));
    let (s, a) = upload_step(s, UploadEvent::Wrote(Ok(())));
    assert!(is_release(&a));
    let (_, a) = upload_step(s, UploadEvent::Released);
    assert!(matches!(a, UploadAction::Finish(Ok(()))));
}

#[test]
fn upload_with_matching_file_writes() {
    let (s, a) = locked(Some(1700), Some(42));
    assert!(is_stat(&a));
    let (s, a) = upload_step(s, UploadEvent::Stat(Ok(Some((42, 1700)))));
    assert!(is_write(&a));
    let (s, a) = upload_step(s, UploadEvent::Wrote(Ok(())));
    assert!(is_release(&a));
    let (_, a) = upload_step(s, UploadEvent::Released);
    assert!(matches!(a, UploadAction::Finish(Ok(()))));
}

#[test]
fn upload_mtime_mismatch_releases_and_never_writes() {
    let (s, _) = locked(Some(1700), None);
    let (s, a) = upload_step(s, UploadEvent::Stat(Ok(Some((42, 1800)))));
    assert!(is_release(&a));
    let (_, a) = upload_step(s, UploadEvent::Released);
    match a {
        UploadAction::Finish(Err(AppError::Conflict(m))) => {
            assert_eq!(m, "file has been modified since last read (mtime mismatch)")
        }
        _ => panic!("expected a conflict"),
    }
}

#[test]
fn upload_size_mismatch_is_conflict() {
    let (s, _) = locked(None, Some(10));
    let (s, a) = upload_step(s, UploadEvent::Stat(Ok(Some((11, 5)))));
    assert!(is_release(&a));
    let (_, a) = upload_step(s, UploadEvent::Released);
    match a {
        UploadAction::Finish(Err(AppError::Conflict(m))) => {
            assert_eq!(m, "file has been modified since last read (size mismatch)")
        }
        _ => panic!("expected a conflict"),
    }
}

#[test]
fn upload_check_on_missing_file_writes() {
    let (s, _) = locked(Some(1), Some(1));
    let (_, a) = upload_step(s, UploadEvent::Stat(Ok(None)));
    assert!(is_write(&a));
}

#[test]
fn upload_stat_failure_releases_then_reports_io() {
    let (s, _) = locked(Some(1), None);
    let err = std::io::Error::new(std::io::ErrorKind::PermissionDenied, "denied");
    let (s, a) = upload_step(s, UploadEvent::Stat(Err(err)));
    assert!(is_release(&a));
    let (_, a) = upload_step(s, UploadEvent::Released);
    assert!(matches!(a, UploadAction::Finish(Err(AppError::Io(_)))));
}

#[test]
fn upload_write_failure_releases_then_reports() {
    let (s, _) = locked(None, None);
    let (s, a) = upload_step(s, UploadEvent::Wrote(Err("disk full".to_string())));
    assert!(is_release(&a));
    let (_, a) = upload_step(s, UploadEvent::Released);
    match a {
        UploadAction::Finish(Err(AppError::BadRequest(m))) => {
            assert_eq!(m, "Failed to write file: disk full")
        }
        _ => panic!("expected a bad request"),
    }
}

#[test]
fn upload_unrelated_event_asks_again() {
    let (s, _) = locked(None, None);
    let (s, a) = upload_step(s, UploadEvent::Released);
    assert!(is_write(&a));
    let (_, a) = upload_step(s, UploadEvent::LockTaken(Ok(())));
    assert!(is_write(&a));
}

//! The steps of storing one uploaded file: take the write lock, run the
//! concurrency check where the client asked for it, write, and give the
//! lock back on every path once it was taken.
use vstd::prelude::*;

use crate::api::fs::{check_occ, occ_requested, spec_check_occ, spec_occ_requested};
use crate::error::{AppError, ErrorView};

verus! {

/// Where the storing of one upload stands.
pub enum UploadState {
    /// Waiting for the write lock; the expected time and size from the client.
    Start { expected_mtime: Option<i64>, expected_size: Option<u64> },
    /// The lock is held; waiting for the file's current size and time.
    Locked { expected_mtime: Option<i64>, expected_size: Option<u64> },
    /// The lock is held and the check passed; waiting for the write.
    Checked,
    /// The lock is held and the upload failed; waiting for the release.
    Failing(AppError),
    /// The lock is held and the file written; waiting for the release.
    Succeeding,
    /// Finished.
    Done,
}

/// What happened, as the caller reports it.
pub enum UploadEvent {
    /// The write lock was taken, or refused with this text.
    LockTaken(Result<(), String>),
    /// The file's current size and time (`None` where it does not exist).
    Stat(Result<Option<(u64, i64)>, std::io::Error>),
    /// The file was written, or the write failed with this text.
    Wrote(Result<(), String>),
    /// The lock was given back.
    Released,
}

/// What the caller must do next.
pub enum UploadAction {
    /// Take the write lock on the target.
    Lock,
    /// Read the target's current size and time.
    Stat,
    /// Write the data to the target.
    Write,
    /// Give the lock back.
    Release,
    /// Report this outcome and stop.
    Finish(Result<(), AppError>),
    /// Nothing: the upload is finished.
    Idle,
}

/// What a client can see of an upload's state.
pub enum UploadStateView {
    Start(Option<i64>, Option<u64>),
    Locked(Option<i64>, Option<u64>),
    Checked,
    Failing(ErrorView),
    Succeeding,
    Done,
}

/// What a client can see of an event.
pub enum UploadEventView {
    LockTaken(Result<(), Seq<char>>),
    Stat(Result<Option<(u64, i64)>, ()>),
    Wrote(Result<(), Seq<char>>),
    Released,
}

/// What a client can see of an action.
pub enum UploadActionView {
    Lock,
    Stat,
    Write,
    Release,
    Finish(Result<(), ErrorView>),
    Idle,
}

impl View for UploadState {
    type V = UploadStateView;

    open spec fn view(&self) -> UploadStateView {
        match self {
            UploadState::Start { expected_mtime, expected_size } => UploadStateView::Start(
                *expected_mtime,
                *expected_size,
            ),
            UploadState::Locked { expected_mtime, expected_size } => UploadStateView::Locked(
                *expected_mtime,
                *expected_size,
            ),
            UploadState::Checked => UploadStateView::Checked,
            UploadState::Failing(e) => UploadStateView::Failing(e@),
            UploadState::Succeeding => UploadStateView::Succeeding,
            UploadState::Done => UploadStateView::Done,
        }
    }
}

impl View for UploadEvent {
    type V = UploadEventView;

    open spec fn view(&self) -> UploadEventView {
        match self {
            UploadEvent::LockTaken(r) => UploadEventView::LockTaken(
                match r {
                    Ok(()) => Ok(()),
                    Err(m) => Err(m@),
                },
            ),
            UploadEvent::Stat(r) => UploadEventView::Stat(
                match r {
                    Ok(c) => Ok(*c),
                    Err(_) => Err(()),
                },
            ),
            UploadEvent::Wrote(r) => UploadEventView::Wrote(
                match r {
                    Ok(()) => Ok(()),
                    Err(m) => Err(m@),
                },
            ),
            UploadEvent::Released => UploadEventView::Released,
        }
    }
}

impl View for UploadAction {
    type V = UploadActionView;

    open spec fn view(&self) -> UploadActionView {
        match self {
            UploadAction::Lock => UploadActionView::Lock,
            UploadAction::Stat => UploadActionView::Stat,
            UploadAction::Write => UploadActionView::Write,
            UploadAction::Release => UploadActionView::Release,
            UploadAction::Finish(r) => UploadActionView::Finish(
                match r {
                    Ok(()) => Ok(()),
                    Err(e) => Err(e@),
                },
            ),
            UploadAction::Idle => UploadActionView::Idle,
        }
    }
}

/// What a state waits for: the action it asks again for an event that does
/// not answer it.
pub open spec fn awaited(s: UploadStateView) -> UploadActionView {
    match s {
        UploadStateView::Start(_, _) => UploadActionView::Lock,
        UploadStateView::Locked(_, _) => UploadActionView::Stat,
        UploadStateView::Checked => UploadActionView::Write,
        UploadStateView::Failing(_) => UploadActionView::Release,
        UploadStateView::Succeeding => UploadActionView::Release,
        UploadStateView::Done => UploadActionView::Idle,
    }
}

/// The states in which the write lock is held.
pub open spec fn holds_lock(s: UploadStateView) -> bool {
    match s {
        UploadStateView::Locked(_, _) | UploadStateView::Checked | UploadStateView::Failing(_)
        | UploadStateView::Succeeding => true,
        _ => false,
    }
}

/// One step of storing an upload: a refused lock ends it as a conflict; a
/// taken lock leads to the check where one was asked for, else to the write;
/// a failed stat, a failed check or a failed write leads to the release and
/// then to that error; a write leads to the release and then to success.
/// An event that does not answer the state asks again for what it awaits.
pub open spec fn spec_upload_step(s: UploadStateView, e: UploadEventView) -> (
    UploadStateView,
    UploadActionView,
) {
    match (s, e) {
        (UploadStateView::Start(m, z), UploadEventView::LockTaken(r)) => match r {
            Err(msg) => (UploadStateView::Done, UploadActionView::Finish(Err(ErrorView::Conflict(msg)))),
            Ok(()) => if spec_occ_requested(m, z) {
                (UploadStateView::Locked(m, z), UploadActionView::Stat)
            } else {
                (UploadStateView::Checked, UploadActionView::Write)
            },
        },
        (UploadStateView::Locked(m, z), UploadEventView::Stat(r)) => match r {
            Err(()) => (UploadStateView::Failing(ErrorView::Io), UploadActionView::Release),
            Ok(current) => match spec_check_occ(m, z, current) {
                Err(msg) => (
                    UploadStateView::Failing(ErrorView::Conflict(msg)),
                    UploadActionView::Release,
                ),
                Ok(()) => (UploadStateView::Checked, UploadActionView::Write),
            },
        },
        (UploadStateView::Checked, UploadEventView::Wrote(r)) => match r {
            Err(msg) => (
                UploadStateView::Failing(
                    ErrorView::BadRequest("Failed to write file: "@ + msg),
                ),
                UploadActionView::Release,
            ),
            Ok(()) => (UploadStateView::Succeeding, UploadActionView::Release),
        },
        (UploadStateView::Failing(err), UploadEventView::Released) => (
            UploadStateView::Done,
            UploadActionView::Finish(Err(err)),
        ),
        (UploadStateView::Succeeding, UploadEventView::Released) => (
            UploadStateView::Done,
            UploadActionView::Finish(Ok(())),
        ),
        _ => (s, awaited(s)),
    }
}

/// The first step of storing an upload: take the write lock.
pub fn upload_start(expected_mtime: Option<i64>, expected_size: Option<u64>) -> (r: (
    UploadState,
    UploadAction,
))
    ensures
        r.0@ == UploadStateView::Start(expected_mtime, expected_size),
        r.1@ == UploadActionView::Lock,
{
    (UploadState::Start { expected_mtime, expected_size }, UploadAction::Lock)
}

/// The next step of storing an upload, given what happened.
pub fn upload_step(state: UploadState, event: UploadEvent) -> (r: (UploadState, UploadAction))
    ensures
        (r.0@, r.1@) == spec_upload_step(state@, event@),
{
    match state {
        UploadState::Start { expected_mtime, expected_size } => match event {
            UploadEvent::LockTaken(Err(msg)) => (
                UploadState::Done,
                UploadAction::Finish(Err(AppError::Conflict(msg))),
            ),
            UploadEvent::LockTaken(Ok(())) => {
                if occ_requested(expected_mtime, expected_size) {
                    (UploadState::Locked { expected_mtime, expected_size }, UploadAction::Stat)
                } else {
                    (UploadState::Checked, UploadAction::Write)
                }
            },
            _ => (UploadState::Start { expected_mtime, expected_size }, UploadAction::Lock),
        },
        UploadState::Locked { expected_mtime, expected_size } => match event {
            UploadEvent::Stat(Err(e)) => (UploadState::Failing(AppError::Io(e)), UploadAction::Release),
            UploadEvent::Stat(Ok(current)) => match check_occ(expected_mtime, expected_size, current) {
                Err(c) => (UploadState::Failing(c), UploadAction::Release),
                Ok(()) => (UploadState::Checked, UploadAction::Write),
            },
            _ => (UploadState::Locked { expected_mtime, expected_size }, UploadAction::Stat),
        },
        UploadState::Checked => match event {
            UploadEvent::Wrote(Err(msg)) => {
                let mut text = String::from_str("Failed to write file: ");
                text.append(msg.as_str());
                (UploadState::Failing(AppError::BadRequest(text)), UploadAction::Release)
            },
            UploadEvent::Wrote(Ok(())) => (UploadState::Succeeding, UploadAction::Release),
            _ => (UploadState::Checked, UploadAction::Write),
        },
        UploadState::Failing(err) => match event {
            UploadEvent::Released => (UploadState::Done, UploadAction::Finish(Err(err))),
            _ => (UploadState::Failing(err), UploadAction::Release),
        },
        UploadState::Succeeding => match event {
            UploadEvent::Released => (UploadState::Done, UploadAction::Finish(Ok(()))),
            _ => (UploadState::Succeeding, UploadAction::Release),
        },
        UploadState::Done => (UploadState::Done, UploadAction::Idle),
    }
}

/// The file is written only after the lock was taken and, where the client
/// asked for the check, only after the check passed.
pub proof fn law_write_only_after_check(s: UploadStateView, e: UploadEventView)
    requires
        spec_upload_step(s, e).1 == UploadActionView::Write,
    ensures
        holds_lock(spec_upload_step(s, e).0),
        s matches UploadStateView::Start(m, z) ==> e matches UploadEventView::LockTaken(Ok(_))
            && !spec_occ_requested(m, z),
        s matches UploadStateView::Locked(m, z) ==> e matches UploadEventView::Stat(Ok(current))
            && spec_check_occ(m, z, current) is Ok,
        !(s is Start) && !(s is Locked) ==> s is Checked,
{
    match s {
        UploadStateView::Start(m, z) => match e {
            UploadEventView::LockTaken(r) => {},
            _ => assert(awaited(s) == UploadActionView::Lock),
        },
        _ => {},
    }
}

/// Once the lock is taken it is given back before the upload finishes: a
/// step from a state that holds the lock either keeps holding it or asks
/// for the release, and an upload finishes only after the release or
/// without ever having had the lock.
pub proof fn law_lock_released_on_every_path(s: UploadStateView, e: UploadEventView)
    ensures
        holds_lock(s) ==> holds_lock(spec_upload_step(s, e).0) || spec_upload_step(s, e).0 is Done,
        holds_lock(s) && spec_upload_step(s, e).0 is Done ==> e == UploadEventView::Released,
        spec_upload_step(s, e).1 is Finish ==> (e == UploadEventView::Released && (s is Failing
            || s is Succeeding)) || (s is Start && e matches UploadEventView::LockTaken(Err(_))),
        holds_lock(s) && holds_lock(spec_upload_step(s, e).0) && !(spec_upload_step(s, e).0 is Locked)
            && !(spec_upload_step(s, e).0 is Checked) ==> spec_upload_step(s, e).1
            == UploadActionView::Release,
{
}

/// A failed check, stat or write never leads to a write: from a failing
/// state the only way on is the release and then the error.
pub proof fn law_failure_not_written(err: ErrorView, e: UploadEventView)
    ensures
        spec_upload_step(UploadStateView::Failing(err), e).1 != UploadActionView::Write,
        e == UploadEventView::Released ==> spec_upload_step(UploadStateView::Failing(err), e) == (
            UploadStateView::Done,
            UploadActionView::Finish(Err(err)),
        ),
{
}

} // verus!

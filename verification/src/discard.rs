//! Actions that could lose unsaved edits: each waits for the user's
//! confirmation, and what the confirmation window's answer leads to.
use vstd::prelude::*;

verus! {

#[verifier::external_type_specification]
#[verifier::external_body]
pub struct ExPathBuf(std::path::PathBuf);

/// An action that could lose unsaved edits, held until the user confirms.
#[derive(Debug, PartialEq, Eq)]
pub enum PendingAction {
    /// Leave edit mode, dropping the buffer.
    ExitEditMode,
    /// Open another file (already chosen).
    OpenFile(std::path::PathBuf),
    /// Close the window.
    CloseApp,
}

/// What the window does with a request to close it.
#[derive(Debug, Clone, Copy, PartialEq, Eq, Structural)]
pub enum CloseReply {
    /// Let it close.
    Close,
    /// Keep it open.
    Cancel,
}

/// The user's answer in the confirmation window this frame.
#[derive(Debug, Clone, Copy, PartialEq, Eq, Structural)]
pub enum DiscardAnswer {
    /// "Continue": go ahead and lose the edits.
    Proceed,
    /// "Cancel", or the window was closed: keep the edits.
    Cancel,
    /// No answer yet.
    Waiting,
}

/// A request to close the window. While an action already waits for
/// confirmation the close is refused and that action kept; with unsaved
/// edits the close is refused and closing waits for confirmation; otherwise
/// the window closes.
pub fn close_requested(pending: &mut Option<PendingAction>, dirty: bool) -> (r: CloseReply)
    ensures
        *old(pending) is Some ==> r == CloseReply::Cancel && *final(pending) == *old(pending),
        *old(pending) is None && dirty ==> r == CloseReply::Cancel && *final(pending) == Some(PendingAction::CloseApp),
        *old(pending) is None && !dirty ==> r == CloseReply::Close && *final(pending) is None,
{
    if pending.is_some() {
        CloseReply::Cancel
    } else if dirty {
        *pending = Some(PendingAction::CloseApp);
        CloseReply::Cancel
    } else {
        CloseReply::Close
    }
}

/// A file chosen to open: with unsaved edits opening waits for confirmation
/// (nothing to open now); otherwise the file is to be opened now.
pub fn open_requested(pending: &mut Option<PendingAction>, path: std::path::PathBuf, dirty: bool) -> (now: Option<std::path::PathBuf>)
    ensures
        dirty ==> now is None && *final(pending) == Some(PendingAction::OpenFile(path)),
        !dirty ==> now == Some(path) && *final(pending) == *old(pending),
{
    if dirty {
        *pending = Some(PendingAction::OpenFile(path));
        None
    } else {
        Some(path)
    }
}

/// Edit mode switched off: with unsaved edits leaving waits for
/// confirmation (`false`: not now); otherwise edit mode is to be left now.
pub fn exit_edit_requested(pending: &mut Option<PendingAction>, dirty: bool) -> (now: bool)
    ensures
        now == !dirty,
        dirty ==> *final(pending) == Some(PendingAction::ExitEditMode),
        !dirty ==> *final(pending) == *old(pending),
{
    if dirty {
        *pending = Some(PendingAction::ExitEditMode);
        false
    } else {
        true
    }
}

/// The confirmation window's answer: cancelling drops the waiting action,
/// proceeding hands it over to be carried out (and nothing waits any
/// more), and without an answer everything stays as it is.
pub fn answer_pending(pending: &mut Option<PendingAction>, answer: DiscardAnswer) -> (act: Option<PendingAction>)
    ensures
        answer == DiscardAnswer::Proceed ==> act == *old(pending) && *final(pending) is None,
        answer == DiscardAnswer::Cancel ==> act is None && *final(pending) is None,
        answer == DiscardAnswer::Waiting ==> act is None && *final(pending) == *old(pending),
{
    match answer {
        DiscardAnswer::Proceed => pending.take(),
        DiscardAnswer::Cancel => {
            *pending = None;
            None
        },
        DiscardAnswer::Waiting => None,
    }
}

} // verus!

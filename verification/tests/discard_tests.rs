use std::path::PathBuf;
use vweditor::discard::{answer_pending, close_requested, exit_edit_requested, open_requested, CloseReply, DiscardAnswer, PendingAction};

#[test]
fn close_with_clean_buffer_closes() {
    let mut pending = None;
    assert_eq!(close_requested(&mut pending, false), CloseReply::Close);
    assert_eq!(pending, None);
}

#[test]
fn close_with_unsaved_edits_asks_first() {
    let mut pending = None;
    assert_eq!(close_requested(&mut pending, true), CloseReply::Cancel);
    assert_eq!(pending, Some(PendingAction::CloseApp));
    // A second close request while the question is open keeps the first.
    let mut waiting = Some(PendingAction::ExitEditMode);
    assert_eq!(close_requested(&mut waiting, true), CloseReply::Cancel);
    assert_eq!(waiting, Some(PendingAction::ExitEditMode));
}

#[test]
fn open_waits_only_when_dirty() {
    let mut pending = None;
    assert_eq!(open_requested(&mut pending, PathBuf::from("b.csv"), false), Some(PathBuf::from("b.csv")));
    assert_eq!(pending, None);
    assert_eq!(open_requested(&mut pending, PathBuf::from("b.csv"), true), None);
    assert_eq!(pending, Some(PendingAction::OpenFile(PathBuf::from("b.csv"))));
}

#[test]
fn exit_edit_waits_only_when_dirty() {
    let mut pending = None;
    assert!(exit_edit_requested(&mut pending, false));
    assert_eq!(pending, None);
    assert!(!exit_edit_requested(&mut pending, true));
    assert_eq!(pending, Some(PendingAction::ExitEditMode));
}

#[test]
fn answers_to_the_confirmation() {
    let mut pending = Some(PendingAction::CloseApp);
    assert_eq!(answer_pending(&mut pending, DiscardAnswer::Waiting), None);
    assert_eq!(pending, Some(PendingAction::CloseApp));
    assert_eq!(answer_pending(&mut pending, DiscardAnswer::Proceed), Some(PendingAction::CloseApp));
    assert_eq!(pending, None);
    let mut pending = Some(PendingAction::ExitEditMode);
    assert_eq!(answer_pending(&mut pending, DiscardAnswer::Cancel), None);
    assert_eq!(pending, None);
}

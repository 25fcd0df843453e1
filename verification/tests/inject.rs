//! Pasting and waiting for the focus.

use fastrans::inject::{foreground_window, next_paste, wait_focus_leave, Fault, Paste, Wait};

#[test]
fn a_paste_in_order() {
    let mut p = Paste::OpenClipboard;
    let expect = [
        Paste::SaveClipboard,
        Paste::SetText,
        Paste::OpenKeyboard,
        Paste::Press,
        Paste::Click,
        Paste::Release { clicked: true },
        Paste::Restore,
        Paste::Done,
        Paste::Done,
    ];
    for e in expect {
        p = next_paste(p, true);
        assert!(p == e);
    }
}

#[test]
fn the_modifier_is_released_after_a_failed_click() {
    let p = next_paste(Paste::Click, false);
    assert!(p == Paste::Release { clicked: false });
    assert!(next_paste(p, true) == Paste::Failed(Fault::Click));
    assert!(next_paste(p, false) == Paste::Failed(Fault::Click));
    assert!(next_paste(Paste::Release { clicked: true }, false) == Paste::Failed(Fault::Release));
}

#[test]
fn faults_of_a_paste() {
    assert!(next_paste(Paste::OpenClipboard, false) == Paste::Failed(Fault::Clipboard));
    assert!(next_paste(Paste::SaveClipboard, false) == Paste::SetText);
    assert!(next_paste(Paste::SetText, false) == Paste::Failed(Fault::Text));
    assert!(next_paste(Paste::OpenKeyboard, false) == Paste::Failed(Fault::Keyboard));
    assert!(next_paste(Paste::Press, false) == Paste::Failed(Fault::Press));
    assert!(next_paste(Paste::Restore, false) == Paste::Done);
    assert!(next_paste(Paste::Failed(Fault::Text), true) == Paste::Failed(Fault::Text));
}

#[test]
fn waits_until_the_focus_has_left() {
    assert_eq!(foreground_window(Some(7)), 7);
    assert_eq!(foreground_window(None), 0);
    assert!(wait_focus_leave(7, 7, false) == Wait::Again(5));
    assert!(wait_focus_leave(7, 0, false) == Wait::Again(5));
    assert!(wait_focus_leave(7, 8, false) == Wait::Settle(15));
    assert!(wait_focus_leave(7, 8, true) == Wait::TimeUp);
}

//! Commits text into the previously focused application: save the clipboard,
//! set the English text, synthesize a paste, restore the clipboard.

use vstd::prelude::*;

verus! {

/// How long the clipboard settles before the paste, in milliseconds.
pub const SETTLE_MS: u64 = 20;

/// How long the target reads the clipboard before it is restored, in
/// milliseconds.
pub const LINGER_MS: u64 = 300;

/// What a paste does next.
#[derive(Clone, Copy, PartialEq, Eq, Structural)]
pub enum Paste {
    OpenClipboard,
    /// Save what the clipboard holds, if it is text.
    SaveClipboard,
    SetText,
    OpenKeyboard,
    /// Press the modifier.
    Press,
    /// Click the letter.
    Click,
    /// Release the modifier; `clicked` tells whether the click went well.
    Release { clicked: bool },
    /// Put back what was saved, if something was.
    Restore,
    Done,
    /// Give up, with the step that failed.
    Failed(Fault),
}

/// The step of a paste that failed.
#[derive(Clone, Copy, PartialEq, Eq, Structural)]
pub enum Fault {
    Clipboard,
    Text,
    Keyboard,
    Press,
    Click,
    Release,
}

/// What follows a step that went well or not. Whether the old clipboard could
/// be saved or restored does not matter.
pub open spec fn paste_after(p: Paste, ok: bool) -> Paste {
    match p {
        Paste::OpenClipboard => if ok {
            Paste::SaveClipboard
        } else {
            Paste::Failed(Fault::Clipboard)
        },
        Paste::SaveClipboard => Paste::SetText,
        Paste::SetText => if ok {
            Paste::OpenKeyboard
        } else {
            Paste::Failed(Fault::Text)
        },
        Paste::OpenKeyboard => if ok {
            Paste::Press
        } else {
            Paste::Failed(Fault::Keyboard)
        },
        Paste::Press => if ok {
            Paste::Click
        } else {
            Paste::Failed(Fault::Press)
        },
        Paste::Click => Paste::Release { clicked: ok },
        Paste::Release { clicked } => if !clicked {
            Paste::Failed(Fault::Click)
        } else if !ok {
            Paste::Failed(Fault::Release)
        } else {
            Paste::Restore
        },
        Paste::Restore => Paste::Done,
        Paste::Done => p,
        Paste::Failed(_) => p,
    }
}

/// What follows a step that went well or not.
pub fn next_paste(p: Paste, ok: bool) -> (r: Paste)
    ensures
        r == paste_after(p, ok),
{
    match p {
        Paste::OpenClipboard => if ok {
            Paste::SaveClipboard
        } else {
            Paste::Failed(Fault::Clipboard)
        },
        Paste::SaveClipboard => Paste::SetText,
        Paste::SetText => if ok {
            Paste::OpenKeyboard
        } else {
            Paste::Failed(Fault::Text)
        },
        Paste::OpenKeyboard => if ok {
            Paste::Press
        } else {
            Paste::Failed(Fault::Keyboard)
        },
        Paste::Press => if ok {
            Paste::Click
        } else {
            Paste::Failed(Fault::Press)
        },
        Paste::Click => Paste::Release { clicked: ok },
        Paste::Release { clicked } => if !clicked {
            Paste::Failed(Fault::Click)
        } else if !ok {
            Paste::Failed(Fault::Release)
        } else {
            Paste::Restore
        },
        Paste::Restore => Paste::Done,
        Paste::Done => p,
        Paste::Failed(_) => p,
    }
}

/// The steps of a paste, given how each of them goes.
pub open spec fn pasted(oks: Seq<bool>) -> Seq<Paste>
    decreases oks.len(),
{
    if oks.len() == 0 {
        seq![Paste::OpenClipboard]
    } else {
        let head = pasted(oks.drop_last());
        head.push(paste_after(head.last(), oks.last()))
    }
}

proof fn lemma_pasted(oks: Seq<bool>)
    ensures
        pasted(oks).len() == oks.len() + 1,
        pasted(oks)[0] == Paste::OpenClipboard,
        forall|i: int| 0 <= i < oks.len() ==> #[trigger] pasted(oks)[i + 1] == paste_after(pasted(oks)[i], oks[i]),
    decreases oks.len(),
{
    if oks.len() > 0 {
        lemma_pasted(oks.drop_last());
        let h = pasted(oks.drop_last());
        let p = pasted(oks);
        assert forall|i: int| 0 <= i < oks.len() implies #[trigger] p[i + 1] == paste_after(p[i], oks[i]) by {
            if i < oks.len() - 1 {
                assert(h[i + 1] == paste_after(h[i], oks.drop_last()[i]));
                assert(p[i + 1] == h[i + 1] && p[i] == h[i]);
            } else {
                assert(p[i] == h.last());
            }
        }
    }
}

/// The modifier never stays pressed: where it was pressed at step `i`, it is
/// released two steps later, whatever became of the click.
pub proof fn law_modifier_is_always_released(oks: Seq<bool>, i: int)
    requires
        0 <= i,
        i + 2 < pasted(oks).len(),
        pasted(oks)[i] == Paste::Press,
        oks[i],
    ensures
        pasted(oks)[i + 2] == (Paste::Release { clicked: oks[i + 1] }),
{
    lemma_pasted(oks);
    assert(pasted(oks)[i + 1] == paste_after(pasted(oks)[i], oks[i]));
    assert(pasted(oks)[i + 1 + 1] == paste_after(pasted(oks)[i + 1], oks[i + 1]));
}

/// A paste that goes well everywhere sets the text before the keys, and
/// restores the clipboard behind them.
pub proof fn law_paste_in_order(oks: Seq<bool>)
    requires
        oks.len() == 8,
        forall|i: int| 0 <= i < 8 ==> #[trigger] oks[i],
    ensures
        pasted(oks) =~= seq![
            Paste::OpenClipboard,
            Paste::SaveClipboard,
            Paste::SetText,
            Paste::OpenKeyboard,
            Paste::Press,
            Paste::Click,
            Paste::Release { clicked: true },
            Paste::Restore,
            Paste::Done,
        ],
{
    lemma_pasted(oks);
    let p = pasted(oks);
    assert(p[0int + 1] == paste_after(p[0], oks[0]));
    assert(p[1int + 1] == paste_after(p[1], oks[1]));
    assert(p[2int + 1] == paste_after(p[2], oks[2]));
    assert(p[3int + 1] == paste_after(p[3], oks[3]));
    assert(p[4int + 1] == paste_after(p[4], oks[4]));
    assert(p[5int + 1] == paste_after(p[5], oks[5]));
    assert(p[6int + 1] == paste_after(p[6], oks[6]));
    assert(p[7int + 1] == paste_after(p[7], oks[7]));
}

// ---------------------------------------------------------------------------
// Waiting for the focus
// ---------------------------------------------------------------------------

/// The handle of the foreground window, 0 when there is none or the system
/// reports none.
pub fn foreground_window(reported: Option<isize>) -> (r: isize)
    ensures
        r == match reported {
            Some(h) => h,
            None => 0,
        },
{
    match reported {
        Some(h) => h,
        None => 0,
    }
}

/// What to do while the focus is still on the bar.
#[derive(Clone, Copy, PartialEq, Eq, Structural)]
pub enum Wait {
    /// Look again after so many milliseconds.
    Again(u64),
    /// The focus has left: settle so many milliseconds, and go on.
    Settle(u64),
    /// The time is up.
    TimeUp,
}

/// Decides what to do, given the window that had the focus, the one that has it
/// now, and whether the time is up.
pub fn wait_focus_leave(prev: isize, now: isize, time_up: bool) -> (r: Wait)
    ensures
        r == if time_up {
            Wait::TimeUp
        } else if now != 0 && now != prev {
            Wait::Settle(15)
        } else {
            Wait::Again(5)
        },
{
    if time_up {
        Wait::TimeUp
    } else if now != 0 && now != prev {
        Wait::Settle(15)
    } else {
        Wait::Again(5)
    }
}

/// A paste ends after eight steps at most, and is done if and only if every
/// step went well but those for the old contents of the clipboard, which do not
/// matter. Otherwise the first step that failed is named; that the modifier was
/// not released is named only if nothing failed before.
pub proof fn law_the_first_fault_is_named(oks: Seq<bool>)
    requires
        oks.len() == 8,
    ensures
        ({
            let end = pasted(oks).last();
            &&& !oks[0] ==> end == Paste::Failed(Fault::Clipboard)
            &&& oks[0] && !oks[2] ==> end == Paste::Failed(Fault::Text)
            &&& oks[0] && oks[2] && !oks[3] ==> end == Paste::Failed(Fault::Keyboard)
            &&& oks[0] && oks[2] && oks[3] && !oks[4] ==> end == Paste::Failed(Fault::Press)
            &&& oks[0] && oks[2] && oks[3] && oks[4] && !oks[5] ==> end == Paste::Failed(Fault::Click)
            &&& oks[0] && oks[2] && oks[3] && oks[4] && oks[5] && !oks[6] ==> end == Paste::Failed(Fault::Release)
            &&& oks[0] && oks[2] && oks[3] && oks[4] && oks[5] && oks[6] ==> end == Paste::Done
        }),
{
    lemma_pasted(oks);
    let p = pasted(oks);
    assert(p[0int + 1] == paste_after(p[0], oks[0]));
    assert(p[1int + 1] == paste_after(p[1], oks[1]));
    assert(p[2int + 1] == paste_after(p[2], oks[2]));
    assert(p[3int + 1] == paste_after(p[3], oks[3]));
    assert(p[4int + 1] == paste_after(p[4], oks[4]));
    assert(p[5int + 1] == paste_after(p[5], oks[5]));
    assert(p[6int + 1] == paste_after(p[6], oks[6]));
    assert(p[7int + 1] == paste_after(p[7], oks[7]));
}

/// The clipboard is restored only behind a paste that went well, so that what
/// was not pasted can still be pasted by hand.
pub proof fn law_restored_behind_the_paste_only(oks: Seq<bool>, i: int)
    requires
        0 <= i < pasted(oks).len(),
        pasted(oks)[i] == Paste::Restore,
    ensures
        i == 7,
        oks[2] && oks[4] && oks[5] && oks[6],
    decreases oks.len(),
{
    lemma_pasted(oks);
    let p = pasted(oks);
    assert(i > 0);
    assert(p[(i - 1) + 1] == paste_after(p[i - 1], oks[i - 1]));
    assert(p[i - 1] == (Paste::Release { clicked: true }) && oks[i - 1]);
    assert(i > 1);
    assert(p[(i - 2) + 1] == paste_after(p[i - 2], oks[i - 2]));
    assert(p[i - 2] == Paste::Click && oks[i - 2]);
    assert(i > 2);
    assert(p[(i - 3) + 1] == paste_after(p[i - 3], oks[i - 3]));
    assert(p[i - 3] == Paste::Press && oks[i - 3]);
    assert(i > 3);
    assert(p[(i - 4) + 1] == paste_after(p[i - 4], oks[i - 4]));
    assert(p[i - 4] == Paste::OpenKeyboard);
    assert(i > 4);
    assert(p[(i - 5) + 1] == paste_after(p[i - 5], oks[i - 5]));
    assert(p[i - 5] == Paste::SetText && oks[i - 5]);
    assert(i > 5);
    assert(p[(i - 6) + 1] == paste_after(p[i - 6], oks[i - 6]));
    assert(p[i - 6] == Paste::SaveClipboard);
    assert(i > 6);
    assert(p[(i - 7) + 1] == paste_after(p[i - 7], oks[i - 7]));
    assert(p[i - 7] == Paste::OpenClipboard);
    if i > 7 {
        assert(p[(i - 8) + 1] == paste_after(p[i - 8], oks[i - 8]));
    }
}

} // verus!

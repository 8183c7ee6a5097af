//! The main window's visibility toggle (tray click and global shortcut): a
//! visible window is hidden to the tray, a hidden one is shown, restored and
//! focused. The window calls themselves are made by the caller.

use vstd::prelude::*;

verus! {

/// Window visibility after a toggle (what the front end is told).
#[derive(Clone, Copy, Debug, PartialEq, Eq)]
pub struct WindowState {
    /// The window is visible after the toggle.
    pub visible: bool,
}

/// What a toggle does to the window.
#[derive(Clone, Copy, Debug, PartialEq, Eq)]
pub enum WindowAction {
    /// Hide it (to the tray).
    Hide,
    /// Show, restore and focus it.
    Show,
}

/// The toggle for a window whose current visibility is `visible`.
pub fn window_toggle(visible: bool) -> (r: (WindowAction, WindowState))
    ensures
        visible ==> r.0 == WindowAction::Hide,
        !visible ==> r.0 == WindowAction::Show,
        r.1.visible == !visible,
{
    if visible {
        (WindowAction::Hide, WindowState { visible: false })
    } else {
        (WindowAction::Show, WindowState { visible: true })
    }
}

} // verus!

//! What a key pressed on the main screen asks for.
use vstd::prelude::*;

verus! {

/// The keys that the main screen reacts to; every other key is `Other`.
#[derive(Clone, Copy, Debug, PartialEq, Eq, Structural)]
pub enum Key {
    PageDown,
    PageUp,
    Enter,
    A,
    Slash,
    N,
    P,
    F,
    C,
    T,
    Q,
    S,
    Home,
    End,
    F2,
    Escape,
    Other,
}

/// A key press with the state of the modifier keys.
#[derive(Clone, Copy, Debug, PartialEq, Eq, Structural)]
pub struct KeyPress {
    pub key: Key,
    pub ctrl: bool,
    pub shift: bool,
}

/// What the main screen does about a key press.
#[derive(Clone, Copy, Debug, PartialEq, Eq, Structural)]
pub enum ThumbsAction {
    /// Scroll down by one screen.
    PageDown,
    /// Scroll up by one screen.
    PageUp,
    /// Open the selection, or what the filter shows.
    Open,
    /// Select every entry the filter shows.
    SelectAll,
    /// Select nothing.
    ClearSelection,
    /// Show the find popup.
    OpenFind,
    /// Go to the next match of the search.
    SearchNext,
    /// Go to the previous match of the search.
    SearchPrev,
    /// Show the filter popup.
    OpenFilter,
    /// Copy the image under the mouse to the clipboard.
    CopyImage,
    /// Show or hide the tag window.
    ToggleTagWindow,
    /// Show or hide the sequences window.
    ToggleSequencesWindow,
    /// Rebuild the view from the collection.
    Refresh,
    /// Scroll to the top.
    GoTop,
    /// Scroll to the bottom.
    GoBottom,
    /// Open a window on the selected entries.
    EditSelected,
}

/// What the main screen does when `press` comes: nothing while the interface takes
/// keyboard input. Ctrl + Shift + A clears the selection and Ctrl + A selects all;
/// Escape clears the selection unless the pointer is over the interface or the same
/// press just closed a window; F2 opens a window on the selection when there is one.
pub fn key_action(
    press: KeyPress,
    ui_wants_keyboard: bool,
    ui_wants_pointer: bool,
    just_closed_window_with_esc: bool,
    nothing_selected: bool,
) -> (r: Option<ThumbsAction>)
    ensures
        ui_wants_keyboard ==> r is None,
        !ui_wants_keyboard ==> r == match press.key {
            Key::PageDown => Some(ThumbsAction::PageDown),
            Key::PageUp => Some(ThumbsAction::PageUp),
            Key::Enter => Some(ThumbsAction::Open),
            Key::A => if press.ctrl && press.shift {
                Some(ThumbsAction::ClearSelection)
            } else if press.ctrl {
                Some(ThumbsAction::SelectAll)
            } else {
                None
            },
            Key::Slash => Some(ThumbsAction::OpenFind),
            Key::N => Some(ThumbsAction::SearchNext),
            Key::P => Some(ThumbsAction::SearchPrev),
            Key::F => Some(ThumbsAction::OpenFilter),
            Key::C => Some(ThumbsAction::CopyImage),
            Key::T => Some(ThumbsAction::ToggleTagWindow),
            Key::Q => Some(ThumbsAction::ToggleSequencesWindow),
            Key::S => Some(ThumbsAction::Refresh),
            Key::Home => Some(ThumbsAction::GoTop),
            Key::End => Some(ThumbsAction::GoBottom),
            Key::F2 => if nothing_selected {
                None
            } else {
                Some(ThumbsAction::EditSelected)
            },
            Key::Escape => if ui_wants_pointer || just_closed_window_with_esc {
                None
            } else {
                Some(ThumbsAction::ClearSelection)
            },
            Key::Other => None,
        },
{
    if ui_wants_keyboard {
        return None;
    }
    match press.key {
        Key::PageDown => Some(ThumbsAction::PageDown),
        Key::PageUp => Some(ThumbsAction::PageUp),
        Key::Enter => Some(ThumbsAction::Open),
        Key::A => {
            if press.ctrl && press.shift {
                Some(ThumbsAction::ClearSelection)
            } else if press.ctrl {
                Some(ThumbsAction::SelectAll)
            } else {
                None
            }
        },
        Key::Slash => Some(ThumbsAction::OpenFind),
        Key::N => Some(ThumbsAction::SearchNext),
        Key::P => Some(ThumbsAction::SearchPrev),
        Key::F => Some(ThumbsAction::OpenFilter),
        Key::C => Some(ThumbsAction::CopyImage),
        Key::T => Some(ThumbsAction::ToggleTagWindow),
        Key::Q => Some(ThumbsAction::ToggleSequencesWindow),
        Key::S => Some(ThumbsAction::Refresh),
        Key::Home => Some(ThumbsAction::GoTop),
        Key::End => Some(ThumbsAction::GoBottom),
        Key::F2 => {
            if nothing_selected {
                None
            } else {
                Some(ThumbsAction::EditSelected)
            }
        },
        Key::Escape => {
            if ui_wants_pointer || just_closed_window_with_esc {
                None
            } else {
                Some(ThumbsAction::ClearSelection)
            }
        },
        Key::Other => None,
    }
}

} // verus!

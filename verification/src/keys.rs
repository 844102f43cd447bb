//! What each key does. Arrow keys follow the screen, so when reading right to
//! left the left arrow moves the story on; space and page down always move
//! forward and page up always back, whichever way the book reads.

use vstd::prelude::*;

verus! {

/// A key the reader listens to.
#[derive(Clone, Copy, Debug, PartialEq, Eq, Structural)]
pub enum Key {
    Left,
    Right,
    Space,
    PageUp,
    PageDown,
    Home,
    End,
    Escape,
    /// Any other key that types a character.
    Char(char),
}

/// What a key asks for.
#[derive(Clone, Copy, Debug, PartialEq, Eq, Structural)]
pub enum Action {
    Next,
    Previous,
    First,
    Last,
    ZoomIn,
    ZoomOut,
    /// 0 the whole page, 1 the width, 2 the height, 3 actual pixels.
    Fit(i32),
    /// Facing pages on or off.
    ToggleSpread,
    /// Right to left on or off.
    ToggleDirection,
    ToggleThumbnails,
    ToggleDark,
    HideChrome,
    ShowChrome,
    Settings,
}

pub open spec fn action_of(key: Key, rtl: bool) -> Option<Action> {
    match key {
        Key::Left => Some(if rtl { Action::Next } else { Action::Previous }),
        Key::Right => Some(if rtl { Action::Previous } else { Action::Next }),
        Key::Space => Some(Action::Next),
        Key::PageDown => Some(Action::Next),
        Key::PageUp => Some(Action::Previous),
        Key::Home => Some(Action::First),
        Key::End => Some(Action::Last),
        Key::Escape => Some(Action::ShowChrome),
        Key::Char(c) => if c == '+' {
            Some(Action::ZoomIn)
        } else if c == '-' {
            Some(Action::ZoomOut)
        } else if c == '0' {
            Some(Action::Fit(0))
        } else if c == 'w' || c == 'W' {
            Some(Action::Fit(1))
        } else if c == 'h' || c == 'H' {
            Some(Action::Fit(2))
        } else if c == '1' {
            Some(Action::Fit(3))
        } else if c == 'd' || c == 'D' {
            Some(Action::ToggleSpread)
        } else if c == 'm' || c == 'M' {
            Some(Action::ToggleDirection)
        } else if c == 't' || c == 'T' {
            Some(Action::ToggleThumbnails)
        } else if c == 'l' || c == 'L' {
            Some(Action::ToggleDark)
        } else if c == 'f' || c == 'F' {
            Some(Action::HideChrome)
        } else if c == ',' {
            Some(Action::Settings)
        } else {
            None
        },
    }
}

pub fn action_for(key: Key, rtl: bool) -> (r: Option<Action>)
    ensures
        r == action_of(key, rtl),
{
    match key {
        Key::Left => Some(if rtl { Action::Next } else { Action::Previous }),
        Key::Right => Some(if rtl { Action::Previous } else { Action::Next }),
        Key::Space => Some(Action::Next),
        Key::PageDown => Some(Action::Next),
        Key::PageUp => Some(Action::Previous),
        Key::Home => Some(Action::First),
        Key::End => Some(Action::Last),
        Key::Escape => Some(Action::ShowChrome),
        Key::Char(c) => if c == '+' {
            Some(Action::ZoomIn)
        } else if c == '-' {
            Some(Action::ZoomOut)
        } else if c == '0' {
            Some(Action::Fit(0))
        } else if c == 'w' || c == 'W' {
            Some(Action::Fit(1))
        } else if c == 'h' || c == 'H' {
            Some(Action::Fit(2))
        } else if c == '1' {
            Some(Action::Fit(3))
        } else if c == 'd' || c == 'D' {
            Some(Action::ToggleSpread)
        } else if c == 'm' || c == 'M' {
            Some(Action::ToggleDirection)
        } else if c == 't' || c == 'T' {
            Some(Action::ToggleThumbnails)
        } else if c == 'l' || c == 'L' {
            Some(Action::ToggleDark)
        } else if c == 'f' || c == 'F' {
            Some(Action::HideChrome)
        } else if c == ',' {
            Some(Action::Settings)
        } else {
            None
        },
    }
}

/// Letter keys do the same in either case, and the same whichever way the
/// book reads.
pub proof fn letters_ignore_case_and_direction(c: char, rtl: bool)
    requires
        'A' <= c <= 'Z',
    ensures
        action_of(Key::Char(c), rtl) == action_of(Key::Char(((c as u32) + 32) as char), rtl),
        action_of(Key::Char(c), rtl) == action_of(Key::Char(c), !rtl),
        action_of(Key::Char(((c as u32) + 32) as char), rtl) == action_of(
            Key::Char(((c as u32) + 32) as char),
            !rtl,
        ),
{
}

/// Each fit key picks a mode of its own: 0 the whole page, W the width, H the
/// height, 1 actual pixels; no other key changes the fit.
pub proof fn fit_keys_pick_their_own_mode(key: Key, rtl: bool, mode: i32)
    ensures
        action_of(Key::Char('0'), rtl) == Some(Action::Fit(0)),
        action_of(Key::Char('w'), rtl) == Some(Action::Fit(1)),
        action_of(Key::Char('h'), rtl) == Some(Action::Fit(2)),
        action_of(Key::Char('1'), rtl) == Some(Action::Fit(3)),
        action_of(key, rtl) == Some(Action::Fit(mode)) ==> {
            ||| mode == 0 && key == Key::Char('0')
            ||| mode == 1 && (key == Key::Char('w') || key == Key::Char('W'))
            ||| mode == 2 && (key == Key::Char('h') || key == Key::Char('H'))
            ||| mode == 3 && key == Key::Char('1')
        },
{
}

/// The arrows follow the screen: in right-to-left reading each arrow does
/// what the other does left to right.
pub proof fn arrows_follow_the_screen(rtl: bool)
    ensures
        action_of(Key::Left, rtl) == action_of(Key::Right, !rtl),
        action_of(Key::Right, rtl) == action_of(Key::Left, !rtl),
        action_of(Key::Left, true) == Some(Action::Next),
        action_of(Key::Right, false) == Some(Action::Next),
{
}

/// Space and page down always move forward and page up always back, whichever
/// way the book reads.
pub proof fn page_keys_ignore_direction(rtl: bool)
    ensures
        action_of(Key::Space, rtl) == Some(Action::Next),
        action_of(Key::PageDown, rtl) == Some(Action::Next),
        action_of(Key::PageUp, rtl) == Some(Action::Previous),
{
}

} // verus!

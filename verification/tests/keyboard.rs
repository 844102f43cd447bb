use mangix::keys::{action_for, Action, Key};

#[test]
fn arrows_follow_the_screen() {
    assert_eq!(action_for(Key::Right, false), Some(Action::Next));
    assert_eq!(action_for(Key::Left, false), Some(Action::Previous));
    assert_eq!(action_for(Key::Left, true), Some(Action::Next));
    assert_eq!(action_for(Key::Right, true), Some(Action::Previous));
}

#[test]
fn space_and_page_keys_always_move_forward_or_back() {
    for rtl in [false, true] {
        assert_eq!(action_for(Key::Space, rtl), Some(Action::Next));
        assert_eq!(action_for(Key::PageDown, rtl), Some(Action::Next));
        assert_eq!(action_for(Key::PageUp, rtl), Some(Action::Previous));
        assert_eq!(action_for(Key::Home, rtl), Some(Action::First));
        assert_eq!(action_for(Key::End, rtl), Some(Action::Last));
    }
}

#[test]
fn letters_and_signs() {
    assert_eq!(action_for(Key::Char('+'), false), Some(Action::ZoomIn));
    assert_eq!(action_for(Key::Char('-'), false), Some(Action::ZoomOut));
    assert_eq!(action_for(Key::Char('0'), false), Some(Action::Fit(0)));
    assert_eq!(action_for(Key::Char('W'), false), Some(Action::Fit(1)));
    assert_eq!(action_for(Key::Char('h'), false), Some(Action::Fit(2)));
    assert_eq!(action_for(Key::Char('1'), false), Some(Action::Fit(3)));
    assert_eq!(action_for(Key::Char('d'), false), Some(Action::ToggleSpread));
    assert_eq!(action_for(Key::Char('M'), true), Some(Action::ToggleDirection));
    assert_eq!(action_for(Key::Char('t'), false), Some(Action::ToggleThumbnails));
    assert_eq!(action_for(Key::Char('L'), false), Some(Action::ToggleDark));
    assert_eq!(action_for(Key::Char('f'), false), Some(Action::HideChrome));
    assert_eq!(action_for(Key::Escape, false), Some(Action::ShowChrome));
    assert_eq!(action_for(Key::Char(','), false), Some(Action::Settings));
    assert_eq!(action_for(Key::Char('q'), false), None);
}

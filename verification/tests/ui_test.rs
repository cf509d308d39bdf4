use cviz::scene::{ColorMode, DepthMode};
use cviz::ui::{handle_event, InputEvent, InputState, KeyInput, MouseButton, UiAction};

fn key(c: &str) -> InputEvent {
    InputEvent::Key { key: KeyInput::Character(c.to_string()), pressed: true }
}

#[test]
fn keys_choose_actions() {
    let mut st = InputState::new();
    assert_eq!(handle_event(&key("1"), &mut st), UiAction::SetDepthMode(DepthMode::Recency));
    assert_eq!(handle_event(&key("2"), &mut st), UiAction::SetDepthMode(DepthMode::Coupling));
    assert_eq!(handle_event(&key("3"), &mut st), UiAction::SetDepthMode(DepthMode::Importance));
    assert_eq!(handle_event(&key("c"), &mut st), UiAction::CycleColorMode);
    assert_eq!(handle_event(&key("f"), &mut st), UiAction::FitAll);
    assert_eq!(handle_event(&key("g"), &mut st), UiAction::ToggleEdges);
    assert_eq!(handle_event(&key("q"), &mut st), UiAction::Quit);
    assert_eq!(handle_event(&key("+"), &mut st), UiAction::ZoomIn);
    assert_eq!(handle_event(&key("-"), &mut st), UiAction::ZoomOut);
    assert_eq!(handle_event(&key("x"), &mut st), UiAction::NoAction);
    assert_eq!(handle_event(&key("12"), &mut st), UiAction::NoAction);
    let esc = InputEvent::Key { key: KeyInput::Escape, pressed: true };
    assert_eq!(handle_event(&esc, &mut st), UiAction::Deselect);
    let space = InputEvent::Key { key: KeyInput::Space, pressed: true };
    assert_eq!(handle_event(&space, &mut st), UiAction::ResetCamera);
    let released = InputEvent::Key { key: KeyInput::Character("1".to_string()), pressed: false };
    assert_eq!(handle_event(&released, &mut st), UiAction::NoAction);
}

#[test]
fn dragging_pans() {
    let mut st = InputState::new();
    assert_eq!(handle_event(&InputEvent::CursorMoved, &mut st), UiAction::NoAction);
    let press = InputEvent::Button { button: MouseButton::Left, pressed: true };
    assert_eq!(handle_event(&press, &mut st), UiAction::Click);
    assert!(st.dragging);
    assert_eq!(handle_event(&InputEvent::CursorMoved, &mut st), UiAction::Pan);
    let release = InputEvent::Button { button: MouseButton::Left, pressed: false };
    assert_eq!(handle_event(&release, &mut st), UiAction::NoAction);
    assert!(!st.dragging);
    assert_eq!(handle_event(&InputEvent::CursorMoved, &mut st), UiAction::NoAction);
}

#[test]
fn wheel_zooms_and_right_click_deselects() {
    let mut st = InputState::new();
    assert_eq!(handle_event(&InputEvent::Wheel, &mut st), UiAction::Zoom);
    let right = InputEvent::Button { button: MouseButton::Right, pressed: true };
    assert_eq!(handle_event(&right, &mut st), UiAction::Deselect);
    let right_up = InputEvent::Button { button: MouseButton::Right, pressed: false };
    assert_eq!(handle_event(&right_up, &mut st), UiAction::NoAction);
    let middle = InputEvent::Button { button: MouseButton::Other, pressed: true };
    assert_eq!(handle_event(&middle, &mut st), UiAction::NoAction);
    assert_eq!(handle_event(&InputEvent::Other, &mut st), UiAction::NoAction);
    assert!(!st.dragging);
}

#[test]
fn color_mode_cycles_back() {
    assert_eq!(ColorMode::FileType.next(), ColorMode::Recency);
    assert_eq!(ColorMode::Recency.next(), ColorMode::FileType);
    assert_eq!(ColorMode::FileType.next().next(), ColorMode::FileType);
}

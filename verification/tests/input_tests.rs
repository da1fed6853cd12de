use overlay_canvas::actions::Actions;
use overlay_canvas::device::DeviceInput;
use overlay_canvas::events::{TrayEvent, UserEvent};
use overlay_canvas::input::{ElementState, KeyCode};
use overlay_canvas::modifiers::DModifiers;

#[test]
fn help_lines() {
    assert_eq!(Actions::CloseWindow.help(), "Close window");
    assert_eq!(Actions::SetDrawing.help(), "Starts drawing when cursor moved");
    assert_eq!(Actions::UndoDraw.help(), "Undoes last action");
    assert_eq!(Actions::RedoDraw.help(), "Redraws last undone action");
}

#[test]
fn modifier_flags_follow_key_events() {
    let mut m = DModifiers::new();
    assert!(!m.get("SHIFT") && !m.get("CONTROL") && !m.get("ALT") && !m.get("SUPER"));
    m.set(&KeyCode::AltLeft, &ElementState::Pressed);
    assert!(m.get("ALT"));
    m.set(&KeyCode::ControlRight, &ElementState::Pressed);
    assert!(m.get("CONTROL"));
    assert!(m.get("CTRL"));
    m.set(&KeyCode::AltRight, &ElementState::Released);
    assert!(!m.get("ALT"));
    m.set(&KeyCode::ShiftLeft, &ElementState::Pressed);
    assert!(m.get("SHIFT"));
    m.set(&KeyCode::SuperLeft, &ElementState::Pressed);
    assert!(m.get("SUPER"));
}

#[test]
fn device_event_resolves_hotkey() {
    let mut d = DeviceInput::new();
    d.device_key_event(KeyCode::ControlLeft, ElementState::Pressed);
    d.device_key_event(KeyCode::AltLeft, ElementState::Pressed);
    let r = d.device_key_event(KeyCode::KeyD, ElementState::Pressed);
    assert_eq!(r, Some(Actions::ToggleDrawMode));
}

#[test]
fn device_auto_repeat_is_suppressed() {
    let mut d = DeviceInput::new();
    d.device_key_event(KeyCode::ControlLeft, ElementState::Pressed);
    d.device_key_event(KeyCode::AltLeft, ElementState::Pressed);
    assert_eq!(
        d.device_key_event(KeyCode::KeyD, ElementState::Pressed),
        Some(Actions::ToggleDrawMode)
    );
    // the OS repeats the press while the key is held: ignored
    assert_eq!(d.device_key_event(KeyCode::KeyD, ElementState::Pressed), None);
    assert_eq!(d.device_key_event(KeyCode::KeyD, ElementState::Pressed), None);
    // release clears the pressed flag; the release itself fires nothing
    assert_eq!(d.device_key_event(KeyCode::KeyD, ElementState::Released), None);
    // a fresh press fires again
    assert_eq!(
        d.device_key_event(KeyCode::KeyD, ElementState::Pressed),
        Some(Actions::ToggleDrawMode)
    );
}

#[test]
fn device_modifier_keys_resolve_nothing() {
    let mut d = DeviceInput::new();
    assert_eq!(d.device_key_event(KeyCode::ControlLeft, ElementState::Pressed), None);
    assert_eq!(d.device_key_event(KeyCode::ShiftRight, ElementState::Pressed), None);
}

#[test]
fn tray_event_converts_to_user_event() {
    assert_eq!(UserEvent::from(TrayEvent::Exit), UserEvent::TrayEvent(TrayEvent::Exit));
    assert_eq!(
        UserEvent::from(TrayEvent::RightClick),
        UserEvent::TrayEvent(TrayEvent::RightClick)
    );
}

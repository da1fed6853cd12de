use overlay_canvas::actions::Actions;
use overlay_canvas::bindings::{
    process_device_binding, process_keyboard_binding, process_mouse_binding, Binding,
    TriggerEvents,
};
use overlay_canvas::input::{ElementState, KeyCode, ModMask, MouseButton};
use overlay_canvas::modifiers::DModifiers;

#[test]
fn left_press_without_modifiers_sets_drawing() {
    let r = process_mouse_binding(MouseButton::Left, &ModMask::none(), ElementState::Pressed);
    assert_eq!(r, Some(Actions::SetDrawing));
}

#[test]
fn left_release_also_fires_toggle_binding() {
    let r = process_mouse_binding(MouseButton::Left, &ModMask::none(), ElementState::Released);
    assert_eq!(r, Some(Actions::SetDrawing));
}

#[test]
fn other_buttons_resolve_nothing() {
    assert_eq!(
        process_mouse_binding(MouseButton::Right, &ModMask::none(), ElementState::Pressed),
        None
    );
    assert_eq!(
        process_mouse_binding(MouseButton::Other(7), &ModMask::none(), ElementState::Pressed),
        None
    );
}

#[test]
fn exact_mask_binding_falls_through_under_control() {
    // a binding that requires no modifiers does not fire while
    // control is held
    let b = Binding::new(
        MouseButton::Left,
        Some(ModMask::none()),
        Actions::SetDrawing,
        TriggerEvents::Toggle,
    );
    assert!(b.is_triggered_by(&MouseButton::Left, &ModMask::none(), &ElementState::Pressed));
    assert!(!b.is_triggered_by(&MouseButton::Left, &ModMask::control(), &ElementState::Pressed));
}

#[test]
fn wildcard_binding_fires_under_any_modifiers() {
    let b = Binding::new(MouseButton::Left, None, Actions::SetDrawing, TriggerEvents::Toggle);
    assert!(b.is_triggered_by(&MouseButton::Left, &ModMask::control(), &ElementState::Pressed));
    assert!(b.is_triggered_by(&MouseButton::Left, &ModMask::control_alt(), &ElementState::Released));
}

#[test]
fn one_shot_binding_fires_only_on_its_transition() {
    let b = Binding::new(
        MouseButton::Middle,
        None,
        Actions::Minimize,
        TriggerEvents::OneTime(ElementState::Pressed),
    );
    assert!(b.is_triggered_by(&MouseButton::Middle, &ModMask::none(), &ElementState::Pressed));
    assert!(!b.is_triggered_by(&MouseButton::Middle, &ModMask::none(), &ElementState::Released));
}

#[test]
fn keyboard_bindings_resolve_by_name_and_mask() {
    assert_eq!(
        process_keyboard_binding("Z", &ModMask::control(), ElementState::Pressed),
        Some(Actions::UndoDraw)
    );
    assert_eq!(
        process_keyboard_binding("Y", &ModMask::control(), ElementState::Pressed),
        Some(Actions::RedoDraw)
    );
    assert_eq!(
        process_keyboard_binding("C", &ModMask::control(), ElementState::Pressed),
        Some(Actions::CloseWindow)
    );
    assert_eq!(
        process_keyboard_binding("ESC", &ModMask::none(), ElementState::Pressed),
        Some(Actions::ExitDrawMode)
    );
}

#[test]
fn keyboard_bindings_reject_wrong_state_or_mask() {
    // releases never fire the one-shot keyboard bindings
    assert_eq!(
        process_keyboard_binding("Z", &ModMask::control(), ElementState::Released),
        None
    );
    // the undo binding requires exactly control
    assert_eq!(process_keyboard_binding("Z", &ModMask::none(), ElementState::Pressed), None);
    assert_eq!(
        process_keyboard_binding("Z", &ModMask::control_alt(), ElementState::Pressed),
        None
    );
    // escape requires exactly no modifiers
    assert_eq!(
        process_keyboard_binding("ESC", &ModMask::control(), ElementState::Pressed),
        None
    );
    // unknown names resolve nothing
    assert_eq!(process_keyboard_binding("Q", &ModMask::control(), ElementState::Pressed), None);
}

#[test]
fn device_binding_needs_control_alt_d() {
    let both = DModifiers { shift: false, control: true, _super: false, alt: true };
    let ctrl_only = DModifiers { shift: false, control: true, _super: false, alt: false };
    assert_eq!(
        process_device_binding(KeyCode::KeyD, both, ElementState::Pressed),
        Some(Actions::ToggleDrawMode)
    );
    assert_eq!(process_device_binding(KeyCode::KeyD, ctrl_only, ElementState::Pressed), None);
    assert_eq!(process_device_binding(KeyCode::KeyD, both, ElementState::Released), None);
    assert_eq!(process_device_binding(KeyCode::Other(42), both, ElementState::Pressed), None);
}

#[test]
fn first_matching_binding_wins() {
    let table = vec![
        Binding::new(MouseButton::Left, None, Actions::Minimize, TriggerEvents::Toggle),
        Binding::new(MouseButton::Left, None, Actions::CloseWindow, TriggerEvents::Toggle),
    ];
    let r = overlay_canvas::bindings::resolve(
        &table,
        &MouseButton::Left,
        &ModMask::none(),
        &ElementState::Pressed,
    );
    assert_eq!(r, Some(Actions::Minimize));
}

#[test]
fn one_shot_inner_state() {
    let t = TriggerEvents::OneTime(ElementState::Released);
    assert_eq!(*t.inner(), ElementState::Released);
}

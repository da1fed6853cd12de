//! Static input bindings and their resolver.
//!
//! A binding maps one trigger value (a mouse button, a keyboard key
//! name, or a device key code), an optional modifier mask, and a
//! press/release condition to an action.  The tables are fixed;
//! resolution walks a table in declaration order and returns the action
//! of the first binding that matches.

use vstd::prelude::*;

use crate::actions::Actions;
use crate::input::{ElementState, KeyCode, ModMask, MouseButton};

verus! {

/// When a binding fires: `Toggle` on any transition, `OneTime` only on
/// the named press/release state.
#[derive(Debug, Clone, Copy, PartialEq, Eq, Structural)]
pub enum TriggerEvents {
    Toggle,
    OneTime(ElementState),
}

impl TriggerEvents {
    /// The press/release state of a one-shot condition.
    pub fn inner(&self) -> (r: &ElementState)
        requires
            self is OneTime,
        ensures
            *self == TriggerEvents::OneTime(*r),
    {
        match self {
            TriggerEvents::Toggle => unreached(),
            TriggerEvents::OneTime(i) => i,
        }
    }
}

/// Equality capability a trigger value offers the shared matcher.
pub trait TriggerValue: Sized {
    /// What counts as the same trigger value.
    spec fn teq(&self, other: &Self) -> bool;

    /// Decide `teq` executably.
    fn matches(&self, other: &Self) -> (r: bool)
        ensures
            r == self.teq(other),
    ;
}

impl TriggerValue for MouseButton {
    open spec fn teq(&self, other: &Self) -> bool {
        *self == *other
    }

    fn matches(&self, other: &Self) -> (r: bool) {
        match (self, other) {
            (MouseButton::Left, MouseButton::Left) => true,
            (MouseButton::Right, MouseButton::Right) => true,
            (MouseButton::Middle, MouseButton::Middle) => true,
            (MouseButton::Other(a), MouseButton::Other(b)) => a == b,
            _ => false,
        }
    }
}

impl TriggerValue for KeyCode {
    open spec fn teq(&self, other: &Self) -> bool {
        *self == *other
    }

    fn matches(&self, other: &Self) -> (r: bool) {
        match (self, other) {
            (KeyCode::AltLeft, KeyCode::AltLeft) => true,
            (KeyCode::AltRight, KeyCode::AltRight) => true,
            (KeyCode::SuperLeft, KeyCode::SuperLeft) => true,
            (KeyCode::SuperRight, KeyCode::SuperRight) => true,
            (KeyCode::ControlLeft, KeyCode::ControlLeft) => true,
            (KeyCode::ControlRight, KeyCode::ControlRight) => true,
            (KeyCode::ShiftLeft, KeyCode::ShiftLeft) => true,
            (KeyCode::ShiftRight, KeyCode::ShiftRight) => true,
            (KeyCode::KeyD, KeyCode::KeyD) => true,
            (KeyCode::Other(a), KeyCode::Other(b)) => a == b,
            _ => false,
        }
    }
}

impl TriggerValue for &'static str {
    open spec fn teq(&self, other: &Self) -> bool {
        self@ == other@
    }

    fn matches(&self, other: &Self) -> (r: bool) {
        crate::modifiers::str_eq(self, other)
    }
}

/// One static rule: trigger value, optional modifier mask (`None`
/// matches any modifier state), firing condition, and the action.
#[derive(Debug, Clone, Copy)]
pub struct Binding<T> {
    pub trigger: T,
    pub mods: Option<ModMask>,
    pub conditions: TriggerEvents,
    pub action: Actions,
}

impl<T> Binding<T> {
    /// Assemble a rule.
    pub fn new(trigger: T, mods: Option<ModMask>, action: Actions, conditions: TriggerEvents) -> (r:
        Binding<T>)
        ensures
            r == (Binding { trigger, mods, conditions, action }),
    {
        Binding { trigger, mods, conditions, action }
    }
}

/// A one-shot condition is met only on its own state; a toggle always.
pub open spec fn condition_met(c: TriggerEvents, state: ElementState) -> bool {
    match c {
        TriggerEvents::Toggle => true,
        TriggerEvents::OneTime(evnt) => evnt == state,
    }
}

/// A mask of `None` is a wildcard; `Some` requires exact equality.
pub open spec fn mods_match(m: Option<ModMask>, mods: ModMask) -> bool {
    match m {
        Option::None => true,
        Option::Some(mask) => mask == mods,
    }
}

/// Whether one binding fires on the given event.
pub open spec fn spec_triggered<T: TriggerValue>(
    b: Binding<T>,
    trigger: T,
    mods: ModMask,
    state: ElementState,
) -> bool {
    b.trigger.teq(&trigger) && mods_match(b.mods, mods) && condition_met(b.conditions, state)
}

impl<T: TriggerValue> Binding<T> {
    /// Does this rule fire on the event?  All three gates must pass:
    /// trigger value, modifier mask, and press/release condition.
    pub fn is_triggered_by(&self, trigger: &T, mods: &ModMask, state: &ElementState) -> (r: bool)
        ensures
            r == spec_triggered(*self, *trigger, *mods, *state),
    {
        let condition = match self.conditions {
            TriggerEvents::Toggle => true,
            TriggerEvents::OneTime(evnt) => evnt == *state,
        };

        let mods_condition = match self.mods {
            Option::None => true,
            Option::Some(m) => m == *mods,
        };

        self.trigger.matches(trigger) && mods_condition && condition
    }
}

/// First-match resolution over a table, in declaration order.
pub open spec fn resolve_spec<T: TriggerValue>(
    table: Seq<Binding<T>>,
    trigger: T,
    mods: ModMask,
    state: ElementState,
) -> Option<Actions>
    decreases table.len(),
{
    if table.len() == 0 {
        Option::None
    } else if spec_triggered(table[0], trigger, mods, state) {
        Option::Some(table[0].action)
    } else {
        resolve_spec(table.drop_first(), trigger, mods, state)
    }
}

/// Walk a table and return the action of the first binding that fires.
pub fn resolve<T: TriggerValue + Copy>(
    table: &Vec<Binding<T>>,
    trigger: &T,
    mods: &ModMask,
    state: &ElementState,
) -> (r: Option<Actions>)
    ensures
        r == resolve_spec(table@, *trigger, *mods, *state),
{
    proof {
        assert(table@.skip(0) =~= table@);
    }
    let mut i: usize = 0;
    while i < table.len()
        invariant
            i <= table@.len(),
            resolve_spec(table@, *trigger, *mods, *state) == resolve_spec(
                table@.skip(i as int),
                *trigger,
                *mods,
                *state,
            ),
        decreases table@.len() - i,
    {
        proof {
            assert(table@.skip(i as int)[0] == table@[i as int]);
        }
        if table[i].is_triggered_by(trigger, mods, state) {
            return Option::Some(table[i].action);
        }
        proof {
            assert(table@.skip(i as int).drop_first() =~= table@.skip(i as int + 1));
        }
        i += 1;
    }
    Option::None
}

/// The static mouse table: left button toggles drawing, any modifiers.
pub open spec fn mouse_table() -> Seq<Binding<MouseButton>> {
    seq![
        Binding {
            trigger: MouseButton::Left,
            mods: Option::None,
            conditions: TriggerEvents::Toggle,
            action: Actions::SetDrawing,
        },
    ]
}

/// Build the mouse table.
pub fn mouse_bindings() -> (r: Vec<Binding<MouseButton>>)
    ensures
        r@ == mouse_table(),
{
    let mut v: Vec<Binding<MouseButton>> = Vec::new();
    v.push(
        Binding::new(MouseButton::Left, Option::None, Actions::SetDrawing, TriggerEvents::Toggle),
    );
    proof {
        assert(v@ =~= mouse_table());
    }
    v
}

/// The static keyboard table, matched on upper-cased key names.
pub open spec fn keyboard_table() -> Seq<Binding<&'static str>> {
    seq![
        Binding {
            trigger: "C",
            mods: Option::Some(ModMask { shift: false, control: true, alt: false, logo: false }),
            conditions: TriggerEvents::OneTime(ElementState::Pressed),
            action: Actions::CloseWindow,
        },
        Binding {
            trigger: "ESC",
            mods: Option::Some(ModMask { shift: false, control: false, alt: false, logo: false }),
            conditions: TriggerEvents::OneTime(ElementState::Pressed),
            action: Actions::ExitDrawMode,
        },
        Binding {
            trigger: "Z",
            mods: Option::Some(ModMask { shift: false, control: true, alt: false, logo: false }),
            conditions: TriggerEvents::OneTime(ElementState::Pressed),
            action: Actions::UndoDraw,
        },
        Binding {
            trigger: "Y",
            mods: Option::Some(ModMask { shift: false, control: true, alt: false, logo: false }),
            conditions: TriggerEvents::OneTime(ElementState::Pressed),
            action: Actions::RedoDraw,
        },
    ]
}

/// Build the keyboard table.
pub fn keyboard_bindings() -> (r: Vec<Binding<&'static str>>)
    ensures
        r@ == keyboard_table(),
{
    let mut v: Vec<Binding<&'static str>> = Vec::new();
    v.push(
        Binding::new(
            "C",
            Option::Some(ModMask::control()),
            Actions::CloseWindow,
            TriggerEvents::OneTime(ElementState::Pressed),
        ),
    );
    v.push(
        Binding::new(
            "ESC",
            Option::Some(ModMask::none()),
            Actions::ExitDrawMode,
            TriggerEvents::OneTime(ElementState::Pressed),
        ),
    );
    v.push(
        Binding::new(
            "Z",
            Option::Some(ModMask::control()),
            Actions::UndoDraw,
            TriggerEvents::OneTime(ElementState::Pressed),
        ),
    );
    v.push(
        Binding::new(
            "Y",
            Option::Some(ModMask::control()),
            Actions::RedoDraw,
            TriggerEvents::OneTime(ElementState::Pressed),
        ),
    );
    proof {
        assert(v@ =~= keyboard_table());
    }
    v
}

/// The static device table: control+alt+D toggles draw mode.
pub open spec fn device_table() -> Seq<Binding<KeyCode>> {
    seq![
        Binding {
            trigger: KeyCode::KeyD,
            mods: Option::Some(ModMask { shift: false, control: true, alt: true, logo: false }),
            conditions: TriggerEvents::OneTime(ElementState::Pressed),
            action: Actions::ToggleDrawMode,
        },
    ]
}

/// Build the device table.
pub fn device_bindings() -> (r: Vec<Binding<KeyCode>>)
    ensures
        r@ == device_table(),
{
    let mut v: Vec<Binding<KeyCode>> = Vec::new();
    v.push(
        Binding::new(
            KeyCode::KeyD,
            Option::Some(ModMask::control_alt()),
            Actions::ToggleDrawMode,
            TriggerEvents::OneTime(ElementState::Pressed),
        ),
    );
    proof {
        assert(v@ =~= device_table());
    }
    v
}

/// Resolve a mouse-button event against the mouse table.
pub fn process_mouse_binding(button: MouseButton, mods: &ModMask, state: ElementState) -> (r:
    Option<Actions>)
    ensures
        r == resolve_spec(mouse_table(), button, *mods, state),
{
    let table = mouse_bindings();
    resolve(&table, &button, mods, &state)
}

/// Resolve a keyboard event, by upper-cased key name, against the
/// keyboard table.
pub fn process_keyboard_binding(key: &str, mods: &ModMask, state: ElementState) -> (r: Option<
    Actions,
>)
    ensures
        r == resolve_str_spec(keyboard_table(), key@, *mods, state),
{
    let table = keyboard_bindings();
    resolve_str(&table, key, mods, &state)
}

/// Resolve a device-level key event against the device table.
pub fn process_device_binding(key: KeyCode, mods: crate::modifiers::DModifiers, state: ElementState)
    -> (r: Option<Actions>)
    ensures
        r == resolve_spec(device_table(), key, crate::modifiers::mask_of(mods), state),
{
    let table = device_bindings();
    let mask = mods.mask();
    resolve(&table, &key, &mask, &state)
}

/// `resolve` for the keyboard table, which stores `&'static str`
/// triggers while the event carries a borrowed key name.
fn resolve_str(
    table: &Vec<Binding<&'static str>>,
    key: &str,
    mods: &ModMask,
    state: &ElementState,
) -> (r: Option<Actions>)
    ensures
        r == resolve_str_spec(table@, key@, *mods, *state),
{
    proof {
        assert(table@.skip(0) =~= table@);
    }
    let mut i: usize = 0;
    while i < table.len()
        invariant
            i <= table@.len(),
            resolve_str_spec(table@, key@, *mods, *state) == resolve_str_spec(
                table@.skip(i as int),
                key@,
                *mods,
                *state,
            ),
        decreases table@.len() - i,
    {
        proof {
            assert(table@.skip(i as int)[0] == table@[i as int]);
        }
        let b = &table[i];
        let condition = match b.conditions {
            TriggerEvents::Toggle => true,
            TriggerEvents::OneTime(evnt) => evnt == *state,
        };
        let mods_condition = match b.mods {
            Option::None => true,
            Option::Some(m) => m == *mods,
        };
        if crate::modifiers::str_eq(b.trigger, key) && mods_condition && condition {
            return Option::Some(b.action);
        }
        proof {
            assert(table@.skip(i as int).drop_first() =~= table@.skip(i as int + 1));
        }
        i += 1;
    }
    Option::None
}

/// First-match resolution where the trigger is a key name compared by
/// its characters.
pub open spec fn resolve_str_spec(
    table: Seq<Binding<&'static str>>,
    key: Seq<char>,
    mods: ModMask,
    state: ElementState,
) -> Option<Actions>
    decreases table.len(),
{
    if table.len() == 0 {
        Option::None
    } else if table[0].trigger@ == key && mods_match(table[0].mods, mods) && condition_met(
        table[0].conditions,
        state,
    ) {
        Option::Some(table[0].action)
    } else {
        resolve_str_spec(table.drop_first(), key, mods, state)
    }
}

} // verus!


//! Plain-value vocabulary for decoded input events.
//!
//! The host event source decodes its raw events into these types before
//! handing them to the engine: a press/release state, a mouse button, a
//! physical key code, and a snapshot of the modifier keys as a mask.

use vstd::prelude::*;

verus! {

/// Whether a button or key event is a press or a release.
#[derive(Debug, Clone, Copy, PartialEq, Eq, Structural)]
pub enum ElementState {
    Pressed,
    Released,
}

impl ElementState {
    /// True exactly on the press transition.
    pub fn is_pressed(&self) -> (r: bool)
        ensures
            r == (*self == ElementState::Pressed),
    {
        match self {
            ElementState::Pressed => true,
            ElementState::Released => false,
        }
    }
}

/// A mouse button.  Buttons the engine has no binding for arrive as
/// `Other` with the host's numeric id.
#[derive(Debug, Clone, Copy, PartialEq, Eq, Structural)]
pub enum MouseButton {
    Left,
    Right,
    Middle,
    Other(u32),
}

/// A physical key, device-level.  The engine distinguishes the eight
/// modifier keys, the keys its device bindings name, and folds the rest
/// into `Other` with the host's numeric code.
#[derive(Debug, Clone, Copy, PartialEq, Eq, Structural)]
pub enum KeyCode {
    AltLeft,
    AltRight,
    SuperLeft,
    SuperRight,
    ControlLeft,
    ControlRight,
    ShiftLeft,
    ShiftRight,
    KeyD,
    Other(u32),
}

impl KeyCode {
    /// True for the eight physical modifier keys.
    pub fn is_modifier(&self) -> (r: bool)
        ensures
            r == is_modifier_key(*self),
    {
        match self {
            KeyCode::AltLeft | KeyCode::AltRight | KeyCode::SuperLeft | KeyCode::SuperRight
                | KeyCode::ControlLeft | KeyCode::ControlRight | KeyCode::ShiftLeft
                | KeyCode::ShiftRight => true,
            _ => false,
        }
    }

    /// An injective numeric id, used to key the pressed-set map.
    pub fn id(&self) -> (r: u64)
        ensures
            r == key_id(*self),
    {
        match self {
            KeyCode::AltLeft => 0,
            KeyCode::AltRight => 1,
            KeyCode::SuperLeft => 2,
            KeyCode::SuperRight => 3,
            KeyCode::ControlLeft => 4,
            KeyCode::ControlRight => 5,
            KeyCode::ShiftLeft => 6,
            KeyCode::ShiftRight => 7,
            KeyCode::KeyD => 8,
            KeyCode::Other(c) => 16 + (*c as u64),
        }
    }
}

/// The eight physical modifier keys.
pub open spec fn is_modifier_key(k: KeyCode) -> bool {
    k == KeyCode::AltLeft || k == KeyCode::AltRight || k == KeyCode::SuperLeft
        || k == KeyCode::SuperRight || k == KeyCode::ControlLeft || k == KeyCode::ControlRight
        || k == KeyCode::ShiftLeft || k == KeyCode::ShiftRight
}

/// Numeric id of a key; distinct keys get distinct ids.
pub open spec fn key_id(k: KeyCode) -> u64 {
    match k {
        KeyCode::AltLeft => 0,
        KeyCode::AltRight => 1,
        KeyCode::SuperLeft => 2,
        KeyCode::SuperRight => 3,
        KeyCode::ControlLeft => 4,
        KeyCode::ControlRight => 5,
        KeyCode::ShiftLeft => 6,
        KeyCode::ShiftRight => 7,
        KeyCode::KeyD => 8,
        KeyCode::Other(c) => (16 + c) as u64,
    }
}

/// `key_id` never collides: it separates the named keys from the
/// `Other` range.
pub proof fn lemma_key_id_injective(a: KeyCode, b: KeyCode)
    requires
        key_id(a) == key_id(b),
    ensures
        a == b,
{
}

/// A snapshot of the four modifier flags, compared as one mask.
/// Binding masks require exact equality of all four flags.
#[derive(Debug, Clone, Copy, PartialEq, Eq, Structural)]
pub struct ModMask {
    pub shift: bool,
    pub control: bool,
    pub alt: bool,
    pub logo: bool,
}

impl ModMask {
    /// No modifier held.
    pub fn none() -> (r: ModMask)
        ensures
            r == (ModMask { shift: false, control: false, alt: false, logo: false }),
    {
        ModMask { shift: false, control: false, alt: false, logo: false }
    }

    /// Only control held.
    pub fn control() -> (r: ModMask)
        ensures
            r == (ModMask { shift: false, control: true, alt: false, logo: false }),
    {
        ModMask { shift: false, control: true, alt: false, logo: false }
    }

    /// Control and alt held together.
    pub fn control_alt() -> (r: ModMask)
        ensures
            r == (ModMask { shift: false, control: true, alt: true, logo: false }),
    {
        ModMask { shift: false, control: true, alt: true, logo: false }
    }
}

} // verus!

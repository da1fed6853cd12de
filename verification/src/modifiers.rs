//! Device-level modifier tracking.
//!
//! The host forwards raw press/release events for the eight physical
//! modifier keys; `DModifiers` keeps the four flags they control and
//! can be asked for one by name or converted into a `ModMask` for
//! binding comparison.

use vstd::prelude::*;

use crate::input::{is_modifier_key, ElementState, KeyCode, ModMask};

verus! {

/// The four modifier flags, each fed by its pair of physical keys.
#[derive(Debug, Clone, Copy, PartialEq, Eq, Structural)]
pub struct DModifiers {
    pub shift: bool,
    pub control: bool,
    pub _super: bool,
    pub alt: bool,
}

/// The flags `DModifiers` holds after a key event: the flag of the
/// key's pair follows the press state, the others keep their value.
pub open spec fn set_modifier(m: DModifiers, kc: KeyCode, pressed: bool) -> DModifiers {
    match kc {
        KeyCode::AltLeft | KeyCode::AltRight => DModifiers { alt: pressed, ..m },
        KeyCode::SuperLeft | KeyCode::SuperRight => DModifiers { _super: pressed, ..m },
        KeyCode::ControlLeft | KeyCode::ControlRight => DModifiers { control: pressed, ..m },
        KeyCode::ShiftLeft | KeyCode::ShiftRight => DModifiers { shift: pressed, ..m },
        _ => m,
    }
}

/// The mask a set of flags compares as.
pub open spec fn mask_of(m: DModifiers) -> ModMask {
    ModMask { shift: m.shift, control: m.control, alt: m.alt, logo: m._super }
}

impl DModifiers {
    /// All flags start clear.
    pub fn new() -> (r: DModifiers)
        ensures
            r == (DModifiers { shift: false, control: false, _super: false, alt: false }),
    {
        DModifiers { shift: false, control: false, _super: false, alt: false }
    }

    /// Feed one raw key event for a physical modifier key.
    pub fn set(&mut self, kc: &KeyCode, state: &ElementState)
        requires
            is_modifier_key(*kc),
        ensures
            *final(self) == set_modifier(*old(self), *kc, *state == ElementState::Pressed),
    {
        let pressed = state.is_pressed();
        match kc {
            KeyCode::AltLeft | KeyCode::AltRight => {
                self.alt = pressed;
            },
            KeyCode::SuperLeft | KeyCode::SuperRight => {
                self._super = pressed;
            },
            KeyCode::ControlLeft | KeyCode::ControlRight => {
                self.control = pressed;
            },
            KeyCode::ShiftLeft | KeyCode::ShiftRight => {
                self.shift = pressed;
            },
            _ => {},
        }
    }

    /// Look a flag up by its upper-case name.
    pub fn get(&self, k: &str) -> (r: bool)
        requires
            k@ == "SHIFT"@ || k@ == "CONTROL"@ || k@ == "CTRL"@ || k@ == "ALT"@
                || k@ == "SUPER"@,
        ensures
            k@ == "SHIFT"@ ==> r == self.shift,
            k@ == "CONTROL"@ || k@ == "CTRL"@ ==> r == self.control,
            k@ == "ALT"@ ==> r == self.alt,
            k@ == "SUPER"@ ==> r == self._super,
    {
        proof {
            reveal_strlit("SHIFT");
            reveal_strlit("CONTROL");
            reveal_strlit("CTRL");
            reveal_strlit("ALT");
            reveal_strlit("SUPER");
            assert("SHIFT"@.len() == 5);
            assert("CONTROL"@.len() == 7);
            assert("CTRL"@.len() == 4);
            assert("ALT"@.len() == 3);
            assert("SUPER"@.len() == 5);
            assert("SHIFT"@[1] != "SUPER"@[1]);
        }
        if str_eq(k, "SHIFT") {
            self.shift
        } else if str_eq(k, "CONTROL") || str_eq(k, "CTRL") {
            self.control
        } else if str_eq(k, "ALT") {
            self.alt
        } else {
            self._super
        }
    }

    /// The mask this snapshot compares as.
    pub fn mask(&self) -> (r: ModMask)
        ensures
            r == mask_of(*self),
    {
        ModMask { shift: self.shift, control: self.control, alt: self.alt, logo: self._super }
    }
}

/// Character-wise string comparison, exact on the views.
pub fn str_eq(a: &str, b: &str) -> (r: bool)
    ensures
        r == (a@ == b@),
{
    let alen = a.unicode_len();
    let blen = b.unicode_len();
    if alen != blen {
        return false;
    }
    let mut i: usize = 0;
    while i < alen
        invariant
            alen == a@.len(),
            alen == b@.len(),
            i <= alen,
            forall|j: int| 0 <= j < i ==> a@[j] == b@[j],
        decreases alen - i,
    {
        if a.get_char(i) != b.get_char(i) {
            return false;
        }
        i += 1;
    }
    proof {
        assert(a@ =~= b@);
    }
    true
}

} // verus!

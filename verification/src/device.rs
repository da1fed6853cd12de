//! Device-level (always-on) key handling: modifier tracking plus the
//! pressed-set map that suppresses OS auto-repeat before a key event
//! reaches binding resolution.

use vstd::prelude::*;

use std::collections::HashMap;

use crate::actions::Actions;
use crate::bindings::{device_table, process_device_binding, resolve_spec};
use crate::input::{is_modifier_key, key_id, ElementState, KeyCode};
use crate::modifiers::{mask_of, set_modifier, DModifiers};

verus! {

/// A press is suppressed when the key is already marked pressed: the
/// OS is auto-repeating it.
pub open spec fn repeat_suppressed(m: Map<u64, bool>, id: u64, pressed: bool) -> bool {
    pressed && m.contains_key(id) && m[id]
}

/// The device input state: the four modifier flags and the
/// pressed-set map, keyed by the injective key id.
pub struct DeviceInput {
    dmods: DModifiers,
    keymap: HashMap<u64, bool>,
}

impl DeviceInput {
    /// Which keys are currently marked pressed.
    pub closed spec fn pressed(self) -> Map<u64, bool> {
        self.keymap@
    }

    /// The current modifier flags.
    pub closed spec fn mods(self) -> DModifiers {
        self.dmods
    }

    /// The current modifier flags, for the host to snapshot.
    pub fn modifier_flags(&self) -> (r: DModifiers)
        ensures
            r == self.mods(),
    {
        self.dmods
    }

    /// Fresh state: no flags, no keys tracked.
    pub fn new() -> (r: DeviceInput)
        ensures
            r.mods() == (DModifiers { shift: false, control: false, _super: false, alt: false }),
            r.pressed() == Map::<u64, bool>::empty(),
    {
        DeviceInput { dmods: DModifiers::new(), keymap: HashMap::new() }
    }

    /// Feed one raw device key event.  A modifier key only updates the
    /// flags.  Any other key updates the pressed-set; a press of a key
    /// already marked pressed is an auto-repeat and resolves nothing,
    /// every other event is resolved against the device binding table
    /// under the current modifier flags.
    pub fn device_key_event(&mut self, key: KeyCode, state: ElementState) -> (r: Option<Actions>)
        ensures
            is_modifier_key(key) ==> {
                &&& final(self).mods() == set_modifier(
                    old(self).mods(),
                    key,
                    state == ElementState::Pressed,
                )
                &&& final(self).pressed() == old(self).pressed()
                &&& r is None
            },
            !is_modifier_key(key) ==> {
                &&& final(self).mods() == old(self).mods()
                &&& final(self).pressed() == old(self).pressed().insert(
                    key_id(key),
                    state == ElementState::Pressed,
                )
                &&& r == (if repeat_suppressed(
                    old(self).pressed(),
                    key_id(key),
                    state == ElementState::Pressed,
                ) {
                    Option::<Actions>::None
                } else {
                    resolve_spec(device_table(), key, mask_of(old(self).mods()), state)
                })
            },
    {
        if key.is_modifier() {
            self.dmods.set(&key, &state);
            return Option::None;
        }
        let id = key.id();
        let pressed = state.is_pressed();
        let already: Option<bool> = match self.keymap.get(&id) {
            Option::Some(b) => Option::Some(*b),
            Option::None => Option::None,
        };
        match already {
            Option::None => {
                self.keymap.insert(id, pressed);
            },
            Option::Some(true) => {
                if pressed {
                    proof {
                        assert(self.keymap@ =~= old(self).keymap@.insert(id, true));
                    }
                    return Option::None;
                }
                self.keymap.insert(id, false);
            },
            Option::Some(false) => {
                if pressed {
                    self.keymap.insert(id, true);
                } else {
                    proof {
                        assert(self.keymap@ =~= old(self).keymap@.insert(id, false));
                    }
                }
            },
        }
        proof {
            assert(self.keymap@ =~= old(self).keymap@.insert(id, pressed));
        }
        process_device_binding(key, self.dmods, state)
    }
}

} // verus!

//! Events the host event loop posts to itself on behalf of the
//! engine: redraw ticks, start-up, and tray-icon interactions.

use vstd::prelude::*;

verus! {

/// What the tray icon reported.
#[derive(Debug, Clone, Copy, PartialEq, Eq, Structural)]
pub enum TrayEvent {
    RightClick,
    Exit,
}

/// A user-level event on the host event loop.
#[derive(Debug, Clone, Copy, PartialEq, Eq, Structural)]
pub enum UserEvent {
    WakeUp,
    Redraw,

    StartMinimized,

    TrayEvent(TrayEvent),
}

impl From<TrayEvent> for UserEvent {
    fn from(v: TrayEvent) -> (r: UserEvent) {
        UserEvent::TrayEvent(v)
    }
}

impl vstd::std_specs::convert::FromSpecImpl<TrayEvent> for UserEvent {
    open spec fn obeys_from_spec() -> bool {
        true
    }

    open spec fn from_spec(v: TrayEvent) -> UserEvent {
        UserEvent::TrayEvent(v)
    }
}

} // verus!

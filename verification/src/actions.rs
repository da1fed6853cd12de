//! The closed set of abstract actions that the binding resolver can
//! produce and the dispatcher can carry out.

use vstd::prelude::*;

verus! {

/// Every operation a resolved input binding may trigger.  The set is
/// closed: dispatch is a total function over it, with no error path.
#[derive(Debug, Clone, Copy, PartialEq, Eq, Structural)]
pub enum Actions {
    CloseWindow,
    Minimize,
    ToggleMaximize,
    ToggleDecorations,
    ToggleFullscreen,

    ToggleDrawMode,

    EnterDrawMode,
    ExitDrawMode,
    RedoDraw,
    UndoDraw,

    SetDrawing,
}

/// The help line shown for each action.
pub open spec fn help_text(a: Actions) -> Seq<char> {
    match a {
        Actions::CloseWindow => "Close window"@,
        Actions::Minimize => "Minimize window"@,
        Actions::ToggleMaximize => "Toggles maximize"@,
        Actions::ToggleDecorations => "Toggles decorations"@,
        Actions::ToggleFullscreen => "Toggles fullscreen"@,
        Actions::ToggleDrawMode => "Toggles draw mode"@,
        Actions::EnterDrawMode => "Enters draw mode"@,
        Actions::ExitDrawMode => "Exits draw mode"@,
        Actions::RedoDraw => "Redraws last undone action"@,
        Actions::UndoDraw => "Undoes last action"@,
        Actions::SetDrawing => "Starts drawing when cursor moved"@,
    }
}

impl Actions {
    /// A short human-readable description of the action.
    pub fn help(&self) -> (r: &'static str)
        ensures
            r@ == help_text(*self),
    {
        match self {
            Actions::CloseWindow => "Close window",
            Actions::Minimize => "Minimize window",
            Actions::ToggleMaximize => "Toggles maximize",
            Actions::ToggleDecorations => "Toggles decorations",
            Actions::ToggleFullscreen => "Toggles fullscreen",

            Actions::ToggleDrawMode => "Toggles draw mode",
            Actions::EnterDrawMode => "Enters draw mode",
            Actions::ExitDrawMode => "Exits draw mode",
            Actions::RedoDraw => "Redraws last undone action",
            Actions::UndoDraw => "Undoes last action",

            Actions::SetDrawing => "Starts drawing when cursor moved",
        }
    }
}

} // verus!

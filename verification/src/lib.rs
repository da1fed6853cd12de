//! Core engine of a transparent screen-overlay drawing tool.
//!
//! The library owns the raster buffer model, the stroke capture and
//! undo/redo log, the brush geometry (line interpolation and disc
//! footprints), and the input-to-action binding resolver.  Window
//! creation, the event loop and the display surface are host concerns:
//! they feed the engine already-decoded events and carry out the
//! commands it returns.

pub mod actions;
pub mod bindings;
pub mod canvas;
pub mod changes;
pub mod device;
pub mod events;
pub mod geometry;
pub mod glyphs;
pub mod history;
pub mod input;
pub mod modifiers;
pub mod window;

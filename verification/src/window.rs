//! Per-window state and the action dispatcher.
//!
//! A window owns a canvas, the cursor track, the focused-modifier
//! snapshot, and the draw-mode flag.  Dispatching an action mutates
//! this state synchronously and returns the commands the host must
//! carry out on its window (minimize, fullscreen, close): the engine
//! decides, the host performs.

use vstd::prelude::*;

use crate::actions::Actions;
use crate::canvas::{segment_spec, Canvas};
use crate::changes::{is_freeze_of, record_all};
use crate::geometry::COORD_LIMIT;
use crate::history::{redo_model, undo_model};
use crate::input::ModMask;

verus! {

/// The cursor track: current and previous position, each absent
/// before the first motion event or after the cursor left.
pub struct CursorPos {
    pub current: Option<(i32, i32)>,
    pub previous: Option<(i32, i32)>,
}

impl CursorPos {
    /// No position known yet.
    pub fn new() -> (r: CursorPos)
        ensures
            r.current is None,
            r.previous is None,
    {
        CursorPos { current: Option::None, previous: Option::None }
    }

    /// Record a new position (or its loss); the old one becomes the
    /// previous position.
    pub fn set(&mut self, v: Option<(i32, i32)>)
        ensures
            final(self).current == v,
            final(self).previous == old(self).current,
    {
        self.previous = self.current;
        self.current = v;
    }

    /// Current and previous position.
    pub fn get(&self) -> (r: (Option<(i32, i32)>, Option<(i32, i32)>))
        ensures
            r.0 == self.current,
            r.1 == self.previous,
    {
        (self.current, self.previous)
    }
}

/// A command the host must carry out on its window.
#[derive(Debug, Clone, Copy, PartialEq, Eq, Structural)]
pub enum WindowCommand {
    Close,
    SetMinimized(bool),
    SetFullscreen(bool),
    ToggleDecorations,
    ToggleFullscreen,
}

/// A position is usable by the rasterizer.
pub open spec fn pos_in_range(p: Option<(i32, i32)>) -> bool {
    match p {
        Option::Some(q) => -COORD_LIMIT <= q.0 <= COORD_LIMIT && -COORD_LIMIT <= q.1
            <= COORD_LIMIT,
        Option::None => true,
    }
}

/// The endpoints a draw at the cursor uses: none without a current
/// position; from the previous position (or the point itself) to the
/// current one otherwise.
pub open spec fn draw_endpoints(c: CursorPos) -> Option<((i32, i32), (i32, i32))> {
    match c.current {
        Option::None => Option::None,
        Option::Some(p) => match c.previous {
            Option::Some(q) => Option::Some((p, q)),
            Option::None => Option::Some((p, p)),
        },
    }
}

/// How a canvas changes when one brush segment from `q` to `p` is
/// painted: the pending stroke grows by the segment's records and the
/// raster takes the brush color at the segment's cells.
pub open spec fn draw_rel(pre: Canvas, post: Canvas, p: (i32, i32), q: (i32, i32)) -> bool {
    let seg = segment_spec(
        q.0 as int,
        q.1 as int,
        p.0 as int,
        p.1 as int,
        pre.spec_brush_size() as int,
        pre.spec_width(),
        pre.spec_height(),
    );
    &&& post.pending() == pre.pending() + record_all(pre.buf(), seg, pre.spec_brush_color()).0
    &&& post.buf() == record_all(pre.buf(), seg, pre.spec_brush_color()).1
    &&& post.done() == pre.done()
    &&& post.undone() == pre.undone()
    &&& post.is_drawing() == pre.is_drawing()
    &&& post.snapshot() == pre.snapshot()
    &&& post.spec_width() == pre.spec_width()
    &&& post.spec_height() == pre.spec_height()
    &&& post.spec_brush_size() == pre.spec_brush_size()
    &&& post.spec_brush_color() == pre.spec_brush_color()
    &&& post.spec_brush_changed_at() == pre.spec_brush_changed_at()
}

/// How a canvas changes when its open stroke is frozen onto the undo
/// stack (drawing turned off).
pub open spec fn flush_rel(pre: Canvas, post: Canvas) -> bool {
    &&& !post.is_drawing()
    &&& post.buf() == pre.buf()
    &&& post.pending().len() == 0
    &&& post.done().len() == pre.done().len() + 1
    &&& post.done().drop_last() == pre.done()
    &&& is_freeze_of(post.done().last(), pre.pending())
    &&& post.undone() == pre.undone()
    &&& post.snapshot() == pre.snapshot()
    &&& post.spec_width() == pre.spec_width()
    &&& post.spec_height() == pre.spec_height()
    &&& post.spec_brush_size() == pre.spec_brush_size()
    &&& post.spec_brush_color() == pre.spec_brush_color()
    &&& post.spec_brush_changed_at() == pre.spec_brush_changed_at()
    &&& (pre.synced() ==> post.synced())
}

/// How a canvas changes when a fresh stroke opens: pending and redo
/// stack cleared, snapshot anchored at the raster.
pub open spec fn start_rel(pre: Canvas, post: Canvas) -> bool {
    &&& post.is_drawing()
    &&& post.buf() == pre.buf()
    &&& post.pending().len() == 0
    &&& post.done() == pre.done()
    &&& post.undone().len() == 0
    &&& post.snapshot() == pre.buf()
    &&& post.spec_width() == pre.spec_width()
    &&& post.spec_height() == pre.spec_height()
    &&& post.spec_brush_size() == pre.spec_brush_size()
    &&& post.spec_brush_color() == pre.spec_brush_color()
    &&& post.spec_brush_changed_at() == pre.spec_brush_changed_at()
    &&& (pre.synced() ==> post.synced())
}

/// What `SetDrawing` does to a window's canvas: toggling the stroke
/// off freezes it; toggling it on opens a stroke and, with a cursor
/// position known, immediately paints at the cursor.
pub open spec fn set_drawing_rel(pre: WindowState, post: Canvas) -> bool {
    if pre.canvas.is_drawing() {
        flush_rel(pre.canvas, post)
    } else {
        match draw_endpoints(pre.cursor_pos) {
            Option::None => start_rel(pre.canvas, post),
            Option::Some((p, q)) => {
                &&& post.is_drawing()
                &&& post.done() == pre.canvas.done()
                &&& post.undone().len() == 0
                &&& post.snapshot() == pre.canvas.buf()
                &&& ({
                    let seg = segment_spec(
                        q.0 as int,
                        q.1 as int,
                        p.0 as int,
                        p.1 as int,
                        pre.canvas.spec_brush_size() as int,
                        pre.canvas.spec_width(),
                        pre.canvas.spec_height(),
                    );
                    &&& post.pending() == record_all(
                        pre.canvas.buf(),
                        seg,
                        pre.canvas.spec_brush_color(),
                    ).0
                    &&& post.buf() == record_all(
                        pre.canvas.buf(),
                        seg,
                        pre.canvas.spec_brush_color(),
                    ).1
                })
                &&& post.spec_width() == pre.canvas.spec_width()
                &&& post.spec_height() == pre.canvas.spec_height()
                &&& post.spec_brush_size() == pre.canvas.spec_brush_size()
                &&& post.spec_brush_color() == pre.canvas.spec_brush_color()
                &&& post.spec_brush_changed_at() == pre.canvas.spec_brush_changed_at()
                &&& (pre.canvas.synced() ==> post.synced())
            },
        }
    }
}

/// The commands that enter draw mode: surface the window and go
/// borderless fullscreen.
pub open spec fn enter_commands() -> Seq<WindowCommand> {
    seq![WindowCommand::SetMinimized(false), WindowCommand::SetFullscreen(true)]
}

/// The commands that leave draw mode: drop fullscreen and minimize.
pub open spec fn exit_commands() -> Seq<WindowCommand> {
    seq![WindowCommand::SetFullscreen(false), WindowCommand::SetMinimized(true)]
}

/// The commands each action sends to the host window, given whether
/// draw mode is on.
pub open spec fn commands_for(action: Actions, draw_mode: bool) -> Seq<WindowCommand> {
    match action {
        Actions::CloseWindow => seq![WindowCommand::Close],
        Actions::Minimize => seq![WindowCommand::SetMinimized(true)],
        Actions::ToggleMaximize => Seq::empty(),
        Actions::ToggleDecorations => seq![WindowCommand::ToggleDecorations],
        Actions::ToggleFullscreen => seq![WindowCommand::ToggleFullscreen],
        Actions::ToggleDrawMode => if draw_mode {
            exit_commands()
        } else {
            enter_commands()
        },
        Actions::EnterDrawMode => if !draw_mode {
            enter_commands()
        } else {
            Seq::empty()
        },
        Actions::ExitDrawMode => if draw_mode {
            exit_commands()
        } else {
            Seq::empty()
        },
        Actions::RedoDraw => Seq::empty(),
        Actions::UndoDraw => Seq::empty(),
        Actions::SetDrawing => Seq::empty(),
    }
}

/// The draw-mode flag each action leaves behind.
pub open spec fn draw_mode_after(action: Actions, draw_mode: bool) -> bool {
    match action {
        Actions::ToggleDrawMode => !draw_mode,
        Actions::EnterDrawMode => true,
        Actions::ExitDrawMode => false,
        _ => draw_mode,
    }
}

/// One overlay window: its canvas, cursor track, focused-modifier
/// snapshot and draw-mode flag.
pub struct WindowState {
    pub canvas: Canvas,
    pub cursor_pos: CursorPos,
    pub modifiers: ModMask,
    pub draw_mode: bool,
}

impl WindowState {
    /// A well-formed window: a well-formed canvas and cursor
    /// positions the rasterizer can take.
    pub open spec fn wf(self) -> bool {
        &&& self.canvas.wf()
        &&& pos_in_range(self.cursor_pos.current)
        &&& pos_in_range(self.cursor_pos.previous)
    }

    /// A fresh window around a fresh canvas of the host surface's
    /// size, with draw mode off.
    pub fn new(width: u32, height: u32) -> (r: WindowState)
        requires
            1 <= width,
            1 <= height,
            width as int * height as int <= u32::MAX,
        ensures
            r.wf(),
            r.canvas.synced(),
            !r.draw_mode,
            !r.canvas.is_drawing(),
            r.canvas.spec_width() == width,
            r.canvas.spec_height() == height,
            r.cursor_pos.current is None,
            r.cursor_pos.previous is None,
            r.modifiers == (ModMask { shift: false, control: false, alt: false, logo: false }),
    {
        WindowState {
            canvas: Canvas::new(width, height),
            cursor_pos: CursorPos::new(),
            modifiers: ModMask::none(),
            draw_mode: false,
        }
    }

    /// Paint at the cursor: from the previous position (or the point
    /// itself) to the current one.  Nothing happens without a current
    /// position or with no stroke open.
    pub fn draw_at_cursor(&mut self)
        requires
            old(self).wf(),
        ensures
            final(self).wf(),
            final(self).cursor_pos == old(self).cursor_pos,
            final(self).modifiers == old(self).modifiers,
            final(self).draw_mode == old(self).draw_mode,
            (!old(self).canvas.is_drawing() || draw_endpoints(old(self).cursor_pos) is None)
                ==> final(self).canvas == old(self).canvas,
            (old(self).canvas.is_drawing() && draw_endpoints(old(self).cursor_pos) is Some) ==> {
                let (p, q) = draw_endpoints(old(self).cursor_pos)->Some_0;
                &&& draw_rel(old(self).canvas, final(self).canvas, p, q)
                &&& (old(self).canvas.synced() ==> final(self).canvas.synced())
            },
    {
        if !self.canvas.drawing() {
            return;
        }
        let (current, previous) = self.cursor_pos.get();
        match current {
            Option::None => {},
            Option::Some(pos) => {
                match previous {
                    Option::Some(pos2) => {
                        self.canvas.draw(pos, pos2);
                    },
                    Option::None => {
                        self.canvas.draw(pos, pos);
                    },
                }
            },
        }
    }

    /// Toggle the brush: open a stroke (and paint at the cursor at
    /// once) or freeze the open one.
    pub fn invert_drawing(&mut self)
        requires
            old(self).wf(),
        ensures
            final(self).wf(),
            final(self).cursor_pos == old(self).cursor_pos,
            final(self).modifiers == old(self).modifiers,
            final(self).draw_mode == old(self).draw_mode,
            set_drawing_rel(*old(self), final(self).canvas),
    {
        self.canvas.invert_drawing();
        if self.canvas.drawing() {
            self.draw_at_cursor();
        }
    }

    /// Enter draw mode: the window is surfaced and goes fullscreen.
    pub fn enter_draw_mode(&mut self) -> (cmds: Vec<WindowCommand>)
        requires
            old(self).wf(),
        ensures
            final(self).wf(),
            final(self).draw_mode,
            final(self).canvas == old(self).canvas,
            final(self).cursor_pos == old(self).cursor_pos,
            final(self).modifiers == old(self).modifiers,
            cmds@ == enter_commands(),
    {
        self.draw_mode = true;
        let mut cmds: Vec<WindowCommand> = Vec::new();
        cmds.push(WindowCommand::SetMinimized(false));
        cmds.push(WindowCommand::SetFullscreen(true));
        proof {
            assert(cmds@ =~= enter_commands());
        }
        cmds
    }

    /// Leave draw mode: an open stroke is frozen first, then the
    /// window drops fullscreen and minimizes.
    pub fn exit_draw_mode(&mut self) -> (cmds: Vec<WindowCommand>)
        requires
            old(self).wf(),
        ensures
            final(self).wf(),
            !final(self).draw_mode,
            final(self).cursor_pos == old(self).cursor_pos,
            final(self).modifiers == old(self).modifiers,
            old(self).canvas.is_drawing() ==> flush_rel(old(self).canvas, final(self).canvas),
            !old(self).canvas.is_drawing() ==> final(self).canvas == old(self).canvas,
            cmds@ == exit_commands(),
    {
        if self.canvas.drawing() {
            self.canvas.invert_drawing();
        }
        self.draw_mode = false;
        let mut cmds: Vec<WindowCommand> = Vec::new();
        cmds.push(WindowCommand::SetFullscreen(false));
        cmds.push(WindowCommand::SetMinimized(true));
        proof {
            assert(cmds@ =~= exit_commands());
        }
        cmds
    }

    /// Ask the host to minimize the window.
    pub fn minimize(&self) -> (cmds: Vec<WindowCommand>)
        ensures
            cmds@ == seq![WindowCommand::SetMinimized(true)],
    {
        let mut cmds: Vec<WindowCommand> = Vec::new();
        cmds.push(WindowCommand::SetMinimized(true));
        proof {
            assert(cmds@ =~= seq![WindowCommand::SetMinimized(true)]);
        }
        cmds
    }

    /// Ask the host to flip the window decorations.
    pub fn toggle_decoration(&self) -> (cmds: Vec<WindowCommand>)
        ensures
            cmds@ == seq![WindowCommand::ToggleDecorations],
    {
        let mut cmds: Vec<WindowCommand> = Vec::new();
        cmds.push(WindowCommand::ToggleDecorations);
        proof {
            assert(cmds@ =~= seq![WindowCommand::ToggleDecorations]);
        }
        cmds
    }

    /// Ask the host to flip fullscreen.
    pub fn toggle_fullscreen(&self) -> (cmds: Vec<WindowCommand>)
        ensures
            cmds@ == seq![WindowCommand::ToggleFullscreen],
    {
        let mut cmds: Vec<WindowCommand> = Vec::new();
        cmds.push(WindowCommand::ToggleFullscreen);
        proof {
            assert(cmds@ =~= seq![WindowCommand::ToggleFullscreen]);
        }
        cmds
    }

    /// The cursor moved: track it and, while painting, draw to it.
    pub fn cursor_moved(&mut self, position: (i32, i32))
        requires
            old(self).wf(),
            -COORD_LIMIT <= position.0 <= COORD_LIMIT,
            -COORD_LIMIT <= position.1 <= COORD_LIMIT,
        ensures
            final(self).wf(),
            final(self).cursor_pos.current == Option::Some(position),
            final(self).cursor_pos.previous == old(self).cursor_pos.current,
            final(self).modifiers == old(self).modifiers,
            final(self).draw_mode == old(self).draw_mode,
            !old(self).canvas.is_drawing() ==> final(self).canvas == old(self).canvas,
            old(self).canvas.is_drawing() ==> {
                let q = match old(self).cursor_pos.current {
                    Option::Some(q0) => q0,
                    Option::None => position,
                };
                &&& draw_rel(old(self).canvas, final(self).canvas, position, q)
                &&& (old(self).canvas.synced() ==> final(self).canvas.synced())
            },
    {
        self.cursor_pos.set(Option::Some(position));
        if self.canvas.drawing() {
            self.draw_at_cursor();
        }
    }

    /// The cursor left the surface.
    pub fn cursor_left(&mut self)
        requires
            old(self).wf(),
        ensures
            final(self).wf(),
            final(self).cursor_pos.current is None,
            final(self).cursor_pos.previous == old(self).cursor_pos.current,
            final(self).canvas == old(self).canvas,
            final(self).modifiers == old(self).modifiers,
            final(self).draw_mode == old(self).draw_mode,
    {
        self.cursor_pos.set(Option::None);
    }

    /// The host surface was resized: the raster follows it and is
    /// cleared, history included.
    pub fn resize(&mut self, width: u32, height: u32)
        requires
            old(self).wf(),
        ensures
            final(self).wf(),
            final(self).cursor_pos == old(self).cursor_pos,
            final(self).modifiers == old(self).modifiers,
            final(self).draw_mode == old(self).draw_mode,
            (width == 0 || height == 0 || width as int * height as int > u32::MAX)
                ==> final(self).canvas == old(self).canvas,
            (width != 0 && height != 0 && width as int * height as int <= u32::MAX) ==> {
                &&& final(self).canvas.spec_width() == width
                &&& final(self).canvas.spec_height() == height
                &&& final(self).canvas.buf() == Seq::new(
                    (width as int * height as int) as nat,
                    |i: int| crate::canvas::CLEAR_BG_COLOR,
                )
                &&& final(self).canvas.done().len() == 0
                &&& final(self).canvas.undone().len() == 0
                &&& final(self).canvas.synced()
            },
    {
        self.canvas.resize_canvas(width, height);
    }

    /// Carry one action out on this window, synchronously, and return
    /// the commands the host must apply to its window.  The function
    /// is total over the action set: there is no error path.
    pub fn handle_action(&mut self, action: Actions) -> (cmds: Vec<WindowCommand>)
        requires
            old(self).wf(),
        ensures
            final(self).wf(),
            cmds@ == commands_for(action, old(self).draw_mode),
            final(self).draw_mode == draw_mode_after(action, old(self).draw_mode),
            final(self).cursor_pos == old(self).cursor_pos,
            final(self).modifiers == old(self).modifiers,
            action == Actions::UndoDraw ==> final(self).canvas.hist() == undo_model(
                old(self).canvas.hist(),
            ) && (old(self).canvas.synced() && !old(self).canvas.is_drawing() ==> final(self).canvas.synced()),
            action == Actions::RedoDraw ==> final(self).canvas.hist() == redo_model(
                old(self).canvas.hist(),
            ) && (old(self).canvas.synced() && !old(self).canvas.is_drawing() ==> final(self).canvas.synced()),
            action == Actions::SetDrawing ==> set_drawing_rel(*old(self), final(self).canvas),
            (action == Actions::ExitDrawMode || action == Actions::ToggleDrawMode) && old(self).draw_mode && old(self).canvas.is_drawing() ==> flush_rel(
                old(self).canvas,
                final(self).canvas,
            ),
            (match action {
                Actions::CloseWindow | Actions::Minimize | Actions::ToggleMaximize
                    | Actions::ToggleDecorations | Actions::ToggleFullscreen
                    | Actions::EnterDrawMode => true,
                Actions::ExitDrawMode | Actions::ToggleDrawMode => !(old(self).draw_mode && old(self).canvas.is_drawing()),
                _ => false,
            }) ==> final(self).canvas == old(self).canvas,
    {
        match action {
            Actions::CloseWindow => {
                let mut cmds: Vec<WindowCommand> = Vec::new();
                cmds.push(WindowCommand::Close);
                proof {
                    assert(cmds@ =~= commands_for(action, old(self).draw_mode));
                }
                cmds
            },
            Actions::Minimize => {
                let cmds = self.minimize();
                cmds
            },
            Actions::ToggleMaximize => {
                Vec::new()
            },
            Actions::ToggleDecorations => {
                let cmds = self.toggle_decoration();
                cmds
            },
            Actions::ToggleFullscreen => {
                let cmds = self.toggle_fullscreen();
                cmds
            },
            Actions::ToggleDrawMode => {
                if self.draw_mode {
                    self.exit_draw_mode()
                } else {
                    self.enter_draw_mode()
                }
            },
            Actions::EnterDrawMode => {
                if !self.draw_mode {
                    self.enter_draw_mode()
                } else {
                    Vec::new()
                }
            },
            Actions::ExitDrawMode => {
                if self.draw_mode {
                    self.exit_draw_mode()
                } else {
                    Vec::new()
                }
            },
            Actions::RedoDraw => {
                self.canvas.redo();
                Vec::new()
            },
            Actions::UndoDraw => {
                self.canvas.undo();
                Vec::new()
            },
            Actions::SetDrawing => {
                self.invert_drawing();
                Vec::new()
            },
        }
    }
}

} // verus!

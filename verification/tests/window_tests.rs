use overlay_canvas::actions::Actions;
use overlay_canvas::window::{WindowCommand, WindowState};

#[test]
fn enter_and_exit_draw_mode_drive_the_window() {
    let mut w = WindowState::new(32, 32);
    assert!(!w.draw_mode);
    let cmds = w.handle_action(Actions::EnterDrawMode);
    assert!(w.draw_mode);
    assert_eq!(
        cmds,
        vec![WindowCommand::SetMinimized(false), WindowCommand::SetFullscreen(true)]
    );
    let cmds = w.handle_action(Actions::ExitDrawMode);
    assert!(!w.draw_mode);
    assert_eq!(
        cmds,
        vec![WindowCommand::SetFullscreen(false), WindowCommand::SetMinimized(true)]
    );
}

#[test]
fn enter_draw_mode_twice_is_a_noop() {
    let mut w = WindowState::new(32, 32);
    w.handle_action(Actions::EnterDrawMode);
    let cmds = w.handle_action(Actions::EnterDrawMode);
    assert!(cmds.is_empty());
    assert!(w.draw_mode);
}

#[test]
fn exit_draw_mode_without_mode_is_a_noop() {
    let mut w = WindowState::new(32, 32);
    let cmds = w.handle_action(Actions::ExitDrawMode);
    assert!(cmds.is_empty());
    assert!(!w.draw_mode);
}

#[test]
fn toggle_draw_mode_flips() {
    let mut w = WindowState::new(32, 32);
    let cmds = w.handle_action(Actions::ToggleDrawMode);
    assert!(w.draw_mode);
    assert_eq!(
        cmds,
        vec![WindowCommand::SetMinimized(false), WindowCommand::SetFullscreen(true)]
    );
    let cmds = w.handle_action(Actions::ToggleDrawMode);
    assert!(!w.draw_mode);
    assert_eq!(
        cmds,
        vec![WindowCommand::SetFullscreen(false), WindowCommand::SetMinimized(true)]
    );
}

#[test]
fn simple_actions_map_to_commands() {
    let mut w = WindowState::new(32, 32);
    assert_eq!(w.handle_action(Actions::CloseWindow), vec![WindowCommand::Close]);
    assert_eq!(w.handle_action(Actions::Minimize), vec![WindowCommand::SetMinimized(true)]);
    assert_eq!(w.handle_action(Actions::ToggleMaximize), vec![]);
    assert_eq!(
        w.handle_action(Actions::ToggleDecorations),
        vec![WindowCommand::ToggleDecorations]
    );
    assert_eq!(
        w.handle_action(Actions::ToggleFullscreen),
        vec![WindowCommand::ToggleFullscreen]
    );
}

#[test]
fn cursor_stroke_through_the_dispatcher() {
    let mut w = WindowState::new(32, 32);
    let blank = w.canvas.buffer().clone();
    w.cursor_moved((5, 5));
    // mouse press: start drawing (paints a first dot at the cursor)
    w.handle_action(Actions::SetDrawing);
    assert!(w.canvas.drawing());
    w.cursor_moved((12, 9));
    w.cursor_moved((14, 20));
    // mouse release: freeze the stroke
    w.handle_action(Actions::SetDrawing);
    assert!(!w.canvas.drawing());
    assert_eq!(w.canvas.undo_depth(), 1);
    assert_ne!(w.canvas.buffer().clone(), blank);
    // undo restores the blank canvas exactly
    w.handle_action(Actions::UndoDraw);
    assert_eq!(w.canvas.buffer().clone(), blank);
    // redo restores the stroke exactly
    let _ = w.handle_action(Actions::RedoDraw);
    assert_eq!(w.canvas.undo_depth(), 1);
    w.handle_action(Actions::UndoDraw);
    assert_eq!(w.canvas.buffer().clone(), blank);
}

#[test]
fn exit_draw_mode_flushes_open_stroke() {
    let mut w = WindowState::new(32, 32);
    w.handle_action(Actions::EnterDrawMode);
    w.cursor_moved((3, 3));
    w.handle_action(Actions::SetDrawing);
    assert!(w.canvas.drawing());
    w.cursor_moved((10, 10));
    let cmds = w.handle_action(Actions::ExitDrawMode);
    assert_eq!(
        cmds,
        vec![WindowCommand::SetFullscreen(false), WindowCommand::SetMinimized(true)]
    );
    // the pending stroke was frozen, not lost
    assert!(!w.canvas.drawing());
    assert_eq!(w.canvas.undo_depth(), 1);
    assert_eq!(w.canvas.pending_len(), 0);
}

#[test]
fn cursor_left_forgets_position() {
    let mut w = WindowState::new(32, 32);
    w.cursor_moved((5, 5));
    w.cursor_left();
    let (current, previous) = (w.cursor_pos.current, w.cursor_pos.previous);
    assert_eq!(current, None);
    assert_eq!(previous, Some((5, 5)));
    // drawing with no cursor position does nothing
    w.handle_action(Actions::SetDrawing);
    assert!(w.canvas.drawing());
    assert_eq!(w.canvas.pending_len(), 0);
}

#[test]
fn window_resize_follows_surface() {
    let mut w = WindowState::new(32, 32);
    w.resize(64, 48);
    assert_eq!(w.canvas.width(), 64);
    assert_eq!(w.canvas.height(), 48);
    w.resize(0, 10);
    assert_eq!(w.canvas.width(), 64);
}

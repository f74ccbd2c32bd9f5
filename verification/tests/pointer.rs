use creamui::platform::{CursorIcon, ResizeDirection};
use creamui::pointer::{pointer_step, resize_cursor, Draggable, HeldClick, PointerAction, PointerEvent, PointerHits, PointerState};

fn nothing() -> PointerHits {
    PointerHits {
        resize: None,
        cursor: None,
        hover: None,
        scene: true,
        click: false,
        click_at: false,
        focus: None,
        drag: None,
        drag_anchor: false,
    }
}

#[test]
fn hovering_a_widget_and_leaving_the_window() {
    let state = PointerState::new();
    let hits = PointerHits { hover: Some(7), cursor: Some(CursorIcon::Pointer), ..nothing() };
    let (state, actions) = pointer_step(state, PointerEvent::Moved { moved_far: false }, hits);
    assert_eq!(
        actions,
        vec![PointerAction::SetCursor(CursorIcon::Pointer), PointerAction::Hover(7), PointerAction::InvalidatePaint]
    );
    assert!(state.inside);
    let (state, actions) = pointer_step(state, PointerEvent::Moved { moved_far: false }, hits);
    assert!(actions.is_empty());
    let (state, actions) = pointer_step(state, PointerEvent::Left, nothing());
    assert_eq!(actions, vec![PointerAction::Unhover, PointerAction::InvalidatePaint]);
    assert_eq!((state.inside, state.hovered), (false, None));
}

#[test]
fn a_press_on_a_button_clicks_and_moves_focus() {
    let hits = PointerHits { click: true, focus: Some(3), ..nothing() };
    let (state, actions) = pointer_step(PointerState::new(), PointerEvent::LeftPressed, hits);
    assert_eq!(
        actions,
        vec![
            PointerAction::InvalidatePaint,
            PointerAction::RestartCaret,
            PointerAction::Click,
            PointerAction::InvalidateLayout,
        ]
    );
    assert_eq!(state.focused, Some(3));
    assert!(state.pressed);
}

#[test]
fn a_press_on_a_window_edge_starts_a_resize() {
    let hits = PointerHits { resize: Some(ResizeDirection::East), click: true, ..nothing() };
    let (_, actions) = pointer_step(PointerState::new(), PointerEvent::LeftPressed, hits);
    assert_eq!(actions, vec![PointerAction::InvalidatePaint, PointerAction::StartResize(ResizeDirection::East)]);
    assert_eq!(resize_cursor(ResizeDirection::NorthWest), CursorIcon::ResizeNwse);
}

#[test]
fn a_click_held_by_a_drag_fires_only_without_moving() {
    let hits = PointerHits { click: true, drag: Some(Draggable { index: 4, has_end: true }), ..nothing() };
    let (pressed, actions) = pointer_step(PointerState::new(), PointerEvent::LeftPressed, hits);
    assert_eq!(actions, vec![PointerAction::InvalidatePaint, PointerAction::StartDrag(4), PointerAction::InvalidateLayout]);
    assert_eq!(pressed.held_click, Some(HeldClick { click: true, click_at: false, moved: false }));

    let (released, actions) = pointer_step(pressed, PointerEvent::LeftReleased, nothing());
    assert_eq!(
        actions,
        vec![PointerAction::EndDrag, PointerAction::Click, PointerAction::InvalidateLayout, PointerAction::InvalidatePaint]
    );
    assert_eq!((released.dragging, released.held_click, released.pressed), (None, None, false));

    let (moved, actions) = pointer_step(pressed, PointerEvent::Moved { moved_far: true }, nothing());
    assert!(actions.contains(&PointerAction::RefreshDrag));
    let (_, actions) = pointer_step(moved, PointerEvent::LeftReleased, nothing());
    assert_eq!(actions, vec![PointerAction::EndDrag, PointerAction::InvalidatePaint]);
}

#[test]
fn losing_focus_drops_the_press_and_drag() {
    let hits = PointerHits { drag: Some(Draggable { index: 1, has_end: false }), ..nothing() };
    let (pressed, _) = pointer_step(PointerState::new(), PointerEvent::LeftPressed, hits);
    let (state, actions) = pointer_step(pressed, PointerEvent::FocusLost, nothing());
    assert_eq!(actions, vec![PointerAction::InvalidatePaint, PointerAction::FocusLost]);
    assert_eq!((state.pressed, state.dragging), (false, None));
}

use creamui::platform::{CursorIcon, WindowId, WindowIds};
use creamui::seat::{keymap_text, SeatFocus};

fn two_windows() -> (WindowId, WindowId) {
    let mut ids = WindowIds::new();
    (ids.next(), ids.next())
}

#[test]
fn entering_a_window_focuses_it() {
    let (a, _) = two_windows();
    let mut seat = SeatFocus::new();
    assert_eq!(seat.pointer_target(), None);
    assert_eq!(seat.pointer_entered(a, false, 7), Some(a));
    assert_eq!(seat.pointer_focus, Some(a));
    assert_eq!(seat.cursor_serial, Some(7));
    assert_eq!(seat.pointer_target(), Some(a));
}

#[test]
fn a_passthrough_window_leaves_events_with_the_last_target() {
    let (panel, overlay) = two_windows();
    let mut seat = SeatFocus::new();
    seat.pointer_entered(panel, false, 1);
    assert_eq!(seat.pointer_entered(overlay, true, 2), Some(panel));
    assert_eq!(seat.pointer_target(), Some(panel));
    assert_eq!(seat.cursor_serial, Some(1));
    assert_eq!(seat.pointer_left(overlay, true), None);
    assert!(!seat.pointer_over_passthrough);
    assert_eq!(seat.pointer_target(), Some(panel));
}

#[test]
fn a_passthrough_window_with_no_earlier_target_sends_nowhere() {
    let (_, overlay) = two_windows();
    let mut seat = SeatFocus::new();
    assert_eq!(seat.pointer_entered(overlay, true, 3), None);
    assert_eq!(seat.pointer_target(), None);
}

#[test]
fn leaving_the_focused_window_drops_the_focus() {
    let (a, b) = two_windows();
    let mut seat = SeatFocus::new();
    seat.pointer_entered(a, false, 5);
    assert_eq!(seat.pointer_left(b, false), None);
    assert_eq!(seat.pointer_focus, Some(a));
    assert_eq!(seat.pointer_left(a, false), Some(a));
    assert_eq!(seat.pointer_focus, None);
    assert_eq!(seat.cursor_serial, None);
    assert_eq!(seat.last_pointer_target, Some(a));
}

#[test]
fn keyboard_focus_follows_enter_and_leave() {
    let (a, b) = two_windows();
    let mut seat = SeatFocus::new();
    seat.keyboard_entered(a);
    assert_eq!(seat.keyboard_focus, Some(a));
    seat.keyboard_left(b);
    assert_eq!(seat.keyboard_focus, Some(a));
    seat.keyboard_left(a);
    assert_eq!(seat.keyboard_focus, None);
}

#[test]
fn closing_a_window_drops_its_focus() {
    let (a, b) = two_windows();
    let mut seat = SeatFocus::new();
    seat.pointer_entered(a, false, 1);
    seat.keyboard_entered(a);
    seat.window_closed(b);
    assert_eq!(seat.pointer_focus, Some(a));
    assert_eq!(seat.keyboard_focus, Some(a));
    seat.window_closed(a);
    assert_eq!(seat.pointer_focus, None);
    assert_eq!(seat.keyboard_focus, None);
}

#[test]
fn cursor_shapes_apply_only_to_the_focused_window() {
    let (a, b) = two_windows();
    let mut seat = SeatFocus::new();
    let requests = vec![(a, CursorIcon::Text), (b, CursorIcon::Pointer), (a, CursorIcon::ResizeNwse)];
    assert!(seat.cursor_shapes(&requests).is_empty());
    seat.pointer_entered(a, false, 9);
    assert_eq!(seat.cursor_shapes(&requests), vec![(9, CursorIcon::Text), (9, CursorIcon::ResizeNwse)]);
    seat.pointer_left(a, false);
    assert!(seat.cursor_shapes(&requests).is_empty());
}

#[test]
fn keymap_text_drops_the_nul_padding() {
    assert_eq!(keymap_text(b"xkb_keymap {}\0\0\0".to_vec()), b"xkb_keymap {}".to_vec());
    assert_eq!(keymap_text(vec![0, 0]), Vec::<u8>::new());
    assert_eq!(keymap_text(vec![1, 0, 2]), vec![1, 0, 2]);
}

#[test]
fn drags_track_the_window_they_are_over() {
    let (a, b) = two_windows();
    let mut seat = SeatFocus::new();
    assert_eq!(seat.drag_moved(), None);
    assert_eq!(seat.drag_ended(), None);
    seat.drag_entered(a);
    assert_eq!(seat.drag_moved(), Some(a));
    seat.drag_entered(b);
    assert_eq!(seat.drag_moved(), Some(b));
    assert_eq!(seat.drag_ended(), Some(b));
    assert_eq!(seat.drag_moved(), None);
}

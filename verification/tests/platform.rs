use creamui::platform::{
    keyboard_key, pointer_button, timeout_for, ControlFlow, Key, Modifiers, MouseButton, UserEvents, WindowIds,
    WindowRole, USER_EVENT_POLL_INTERVAL,
};

#[test]
fn linux_button_codes_map_to_buttons() {
    assert_eq!(pointer_button(0x110), MouseButton::Left);
    assert_eq!(pointer_button(0x111), MouseButton::Right);
    assert_eq!(pointer_button(0x112), MouseButton::Middle);
    assert_eq!(pointer_button(0x113), MouseButton::Other(0x113));
    assert_eq!(pointer_button(0x1_0000), MouseButton::Other(u16::MAX));
}

#[test]
fn structural_keys_win_over_layout_text() {
    assert_eq!(keyboard_key(14, Some("\u{8}".to_string())), Key::Backspace);
    assert_eq!(keyboard_key(28, Some("\r".to_string())), Key::Enter);
    assert_eq!(keyboard_key(1, None), Key::Escape);
    assert_eq!(keyboard_key(30, Some("a".to_string())), Key::Character("a".to_string()));
    assert_eq!(keyboard_key(61, Some(String::new())), Key::F3);
    assert_eq!(keyboard_key(61, None), Key::F3);
    assert_eq!(keyboard_key(59, None), Key::Other);
}

#[test]
fn the_event_loop_never_sleeps_past_the_poll_interval_or_a_deadline() {
    assert_eq!(timeout_for(ControlFlow::Wait, 5), USER_EVENT_POLL_INTERVAL);
    assert_eq!(timeout_for(ControlFlow::WaitUntil(1_000), 400), 600);
    assert_eq!(timeout_for(ControlFlow::WaitUntil(1_000), 2_000), 0);
    assert_eq!(timeout_for(ControlFlow::WaitUntil(100_000_000), 0), USER_EVENT_POLL_INTERVAL);
    assert_eq!(ControlFlow::default(), ControlFlow::Wait);
}

#[test]
fn window_ids_are_handed_out_in_order() {
    let mut ids = WindowIds::new();
    let a = ids.next();
    let b = ids.next();
    assert_eq!(a.value(), 1);
    assert_eq!(b.value(), 2);
    assert_ne!(a, b);
}

#[test]
fn user_events_drain_oldest_first() {
    let mut queue = UserEvents::new();
    queue.send_event("first");
    queue.send_event("second");
    assert_eq!(queue.drain(), vec!["first", "second"]);
    assert!(queue.drain().is_empty());
}

#[test]
fn defaults_are_plain() {
    assert_eq!(WindowRole::default(), WindowRole::Normal);
    assert_eq!(Modifiers::default(), Modifiers { ctrl: false, shift: false });
}

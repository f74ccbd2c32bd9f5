//! Window-platform value types shared by every backend, and the backend
//! decisions that need no window system: window ids, pointer buttons,
//! structural keys, the user-event queue and the event-loop poll timeout.

use vstd::prelude::*;

verus! {

/// Which window system a backend drives.
#[derive(Clone, Copy, Debug, PartialEq, Eq, Structural)]
pub enum BackendKind {
    Winit,
    Wayland,
    X11,
    Windows,
}

/// A window's process-unique id.
#[derive(Clone, Copy, Debug, PartialEq, Eq, Hash, Structural)]
pub struct WindowId(u64);

impl WindowId {
    pub closed spec fn spec_value(self) -> u64 {
        self.0
    }

    /// The number behind this id.
    pub fn value(&self) -> (r: u64)
        ensures
            r == self.spec_value(),
    {
        self.0
    }
}

/// Hands out window ids: `1`, `2`, `3`, … in order, never the same twice.
pub struct WindowIds {
    next: u64,
}

impl WindowIds {
    /// The id the next [`WindowIds::next`] returns.
    pub closed spec fn upcoming(&self) -> u64 {
        self.next
    }

    pub fn new() -> (r: Self)
        ensures
            r.upcoming() == 1,
    {
        WindowIds { next: 1 }
    }

    /// A fresh id; the counter wraps to 0 past `u64::MAX`, as an atomic
    /// counter does.
    pub fn next(&mut self) -> (id: WindowId)
        ensures
            id.spec_value() == old(self).upcoming(),
            final(self).upcoming() == (if old(self).upcoming() == u64::MAX { 0 } else { old(self).upcoming() + 1 }),
    {
        let id = WindowId(self.next);
        self.next = self.next.wrapping_add(1);
        id
    }
}

/// Two ids handed out one after the other differ, and every later one is
/// larger than every earlier one.
pub proof fn lemma_ids_increase(first: WindowId, before: WindowIds, after: WindowIds, second: WindowId)
    requires
        first.spec_value() < before.upcoming(),
        second.spec_value() == before.upcoming(),
        after.upcoming() == before.upcoming() + 1,
    ensures
        first != second,
        first.spec_value() < second.spec_value() < after.upcoming(),
{
}

/// A size in physical pixels.
#[derive(Clone, Copy, Debug, PartialEq, Eq, Structural)]
pub struct PhysicalSize {
    pub width: u32,
    pub height: u32,
}

#[derive(Clone, Copy, Debug, PartialEq, Eq, Structural)]
pub enum WindowLevel {
    Normal,
    AlwaysOnTop,
}

/// What a window is for, which decides how the compositor places it.
#[derive(Clone, Copy, Debug, PartialEq, Eq, Structural)]
pub enum WindowRole {
    Normal,
    Desktop,
    Overlay,
    TopPanel,
    BottomPanel,
}

impl Default for WindowRole {
    fn default() -> (r: Self)
        ensures
            r == WindowRole::Normal,
    {
        WindowRole::Normal
    }
}

#[derive(Clone, Copy, Debug, PartialEq, Eq, Structural)]
pub enum CursorIcon {
    Default,
    Text,
    Pointer,
    NotAllowed,
    ResizeHorizontal,
    ResizeVertical,
    ResizeNwse,
    ResizeNesw,
}

#[derive(Clone, Copy, Debug, PartialEq, Eq, Structural)]
pub enum ResizeDirection {
    East,
    West,
    North,
    South,
    NorthWest,
    NorthEast,
    SouthWest,
    SouthEast,
}

#[derive(Clone, Copy, Debug, PartialEq, Eq, Structural)]
pub enum MouseButton {
    Left,
    Right,
    Middle,
    Other(u16),
}

/// The modifier keys widgets look at.
#[derive(Clone, Copy, Debug, PartialEq, Eq, Structural)]
pub struct Modifiers {
    pub ctrl: bool,
    pub shift: bool,
}

impl Default for Modifiers {
    fn default() -> (r: Self)
        ensures
            !r.ctrl && !r.shift,
    {
        Modifiers { ctrl: false, shift: false }
    }
}

/// A key as widgets see it: text to insert, or a named key.
#[derive(Clone, Debug, PartialEq, Eq)]
pub enum Key {
    Character(String),
    Space,
    Backspace,
    Delete,
    Enter,
    Tab,
    Escape,
    Left,
    Right,
    Up,
    Down,
    Home,
    End,
    F3,
    Other,
}

#[derive(Clone, Debug, PartialEq, Eq)]
pub struct KeyEvent {
    pub key: Key,
    pub pressed: bool,
    pub synthetic: bool,
}

/// The serial of the input event that caused a request (a popup grab, a
/// window move).
#[derive(Clone, Copy, Debug, PartialEq, Eq, Structural)]
pub struct InputSerial(pub u32);

/// Which side of its anchor a popup opens on.
#[derive(Clone, Copy, Debug, PartialEq, Eq, Structural)]
pub enum PopupPlacement {
    Above,
    Below,
}

/// The button that a Linux input-event button code names.
pub open spec fn button_of(code: u32) -> MouseButton {
    if code == 0x110 {
        MouseButton::Left
    } else if code == 0x111 {
        MouseButton::Right
    } else if code == 0x112 {
        MouseButton::Middle
    } else if code <= u16::MAX {
        MouseButton::Other(code as u16)
    } else {
        MouseButton::Other(u16::MAX)
    }
}

/// Maps a Linux input-event button code (`BTN_LEFT` is `0x110`) to a
/// button; codes past `u16::MAX` saturate.
pub fn pointer_button(button: u32) -> (r: MouseButton)
    ensures
        r == button_of(button),
{
    if button == 0x110 {
        MouseButton::Left
    } else if button == 0x111 {
        MouseButton::Right
    } else if button == 0x112 {
        MouseButton::Middle
    } else if button <= 0xffff {
        MouseButton::Other(button as u16)
    } else {
        MouseButton::Other(0xffff)
    }
}

/// Linux input-event key codes (`linux/input-event-codes.h`), as the
/// Wayland keyboard reports them.
pub const KEY_ESC: u32 = 1;
pub const KEY_BACKSPACE: u32 = 14;
pub const KEY_TAB: u32 = 15;
pub const KEY_ENTER: u32 = 28;
pub const KEY_SPACE: u32 = 57;
pub const KEY_F3: u32 = 61;
pub const KEY_HOME: u32 = 102;
pub const KEY_UP: u32 = 103;
pub const KEY_LEFT: u32 = 105;
pub const KEY_RIGHT: u32 = 106;
pub const KEY_END: u32 = 107;
pub const KEY_DOWN: u32 = 108;
pub const KEY_DELETE: u32 = 111;

/// Each Linux key code of a structural key means that key, and no other
/// code does: the arrow, Home/End, editing and Escape/Tab/Enter/Space keys
/// are recognised by their input-event codes, and every other code is left
/// to the keyboard layout.
pub proof fn lemma_structural_keys_follow_linux_codes(code: u32)
    ensures
        structural_key(KEY_ESC) == Some(Key::Escape),
        structural_key(KEY_BACKSPACE) == Some(Key::Backspace),
        structural_key(KEY_TAB) == Some(Key::Tab),
        structural_key(KEY_ENTER) == Some(Key::Enter),
        structural_key(KEY_SPACE) == Some(Key::Space),
        structural_key(KEY_HOME) == Some(Key::Home),
        structural_key(KEY_UP) == Some(Key::Up),
        structural_key(KEY_LEFT) == Some(Key::Left),
        structural_key(KEY_RIGHT) == Some(Key::Right),
        structural_key(KEY_END) == Some(Key::End),
        structural_key(KEY_DOWN) == Some(Key::Down),
        structural_key(KEY_DELETE) == Some(Key::Delete),
        structural_key(KEY_F3) is None,
        structural_key(code) is Some <==> (code == KEY_ESC || code == KEY_BACKSPACE || code == KEY_TAB
            || code == KEY_ENTER || code == KEY_SPACE || code == KEY_HOME || code == KEY_UP || code == KEY_LEFT
            || code == KEY_RIGHT || code == KEY_END || code == KEY_DOWN || code == KEY_DELETE),
{
}

/// The named key that a Linux key code always means, whatever the layout.
pub open spec fn structural_key(code: u32) -> Option<Key> {
    if code == 1 {
        Some(Key::Escape)
    } else if code == 14 {
        Some(Key::Backspace)
    } else if code == 15 {
        Some(Key::Tab)
    } else if code == 28 {
        Some(Key::Enter)
    } else if code == 57 {
        Some(Key::Space)
    } else if code == 102 {
        Some(Key::Home)
    } else if code == 103 {
        Some(Key::Up)
    } else if code == 105 {
        Some(Key::Left)
    } else if code == 106 {
        Some(Key::Right)
    } else if code == 107 {
        Some(Key::End)
    } else if code == 108 {
        Some(Key::Down)
    } else if code == 111 {
        Some(Key::Delete)
    } else {
        None
    }
}

/// The key for Linux key code `key`, given the text that the keyboard
/// layout maps it to (`text`, without the Ctrl transform; `None` when
/// there is no layout). Structural keys win over the layout, so a control
/// character is never inserted as text; then non-empty layout text; then
/// F3; everything else is `Other`.
pub fn keyboard_key(key: u32, text: Option<String>) -> (r: Key)
    ensures
        structural_key(key) matches Some(k) ==> r == k,
        structural_key(key) is None ==> match text {
            Some(t) if t@.len() > 0 => r == Key::Character(t),
            _ => r == (if key == 61 { Key::F3 } else { Key::Other }),
        },
{
    if key == 1 {
        Key::Escape
    } else if key == 14 {
        Key::Backspace
    } else if key == 15 {
        Key::Tab
    } else if key == 28 {
        Key::Enter
    } else if key == 57 {
        Key::Space
    } else if key == 102 {
        Key::Home
    } else if key == 103 {
        Key::Up
    } else if key == 105 {
        Key::Left
    } else if key == 106 {
        Key::Right
    } else if key == 107 {
        Key::End
    } else if key == 108 {
        Key::Down
    } else if key == 111 {
        Key::Delete
    } else {
        match text {
            Some(t) => {
                if t.as_str().unicode_len() > 0 {
                    return Key::Character(t);
                }
            },
            None => {},
        }
        if key == 61 {
            Key::F3
        } else {
            Key::Other
        }
    }
}

/// When the event loop may next wake on its own, in nanoseconds of a
/// monotonic clock the caller chooses.
#[derive(Clone, Copy, Debug, PartialEq, Eq, Structural)]
pub enum ControlFlow {
    Wait,
    WaitUntil(u64),
}

impl Default for ControlFlow {
    fn default() -> (r: Self)
        ensures
            r == ControlFlow::Wait,
    {
        ControlFlow::Wait
    }
}

/// How often the event loop wakes to deliver user events: 8 ms.
pub const USER_EVENT_POLL_INTERVAL: u64 = 8_000_000;

/// How long the event loop may block at time `now` (nanoseconds): never
/// longer than the poll interval, and no longer than until the deadline.
pub open spec fn timeout_of(flow: ControlFlow, now: u64) -> u64 {
    match flow {
        ControlFlow::Wait => USER_EVENT_POLL_INTERVAL,
        ControlFlow::WaitUntil(deadline) => {
            let left: int = if deadline > now { deadline - now } else { 0 };
            if left < USER_EVENT_POLL_INTERVAL { left as u64 } else { USER_EVENT_POLL_INTERVAL }
        },
    }
}

/// The poll timeout for `flow` at time `now`, in nanoseconds.
pub fn timeout_for(flow: ControlFlow, now: u64) -> (r: u64)
    ensures
        r == timeout_of(flow, now),
{
    match flow {
        ControlFlow::Wait => USER_EVENT_POLL_INTERVAL,
        ControlFlow::WaitUntil(deadline) => {
            let left = if deadline > now { deadline - now } else { 0 };
            if left < USER_EVENT_POLL_INTERVAL { left } else { USER_EVENT_POLL_INTERVAL }
        },
    }
}

/// The event loop never blocks past the poll interval, nor past a
/// deadline that is still ahead.
pub proof fn lemma_timeout_bounded(flow: ControlFlow, now: u64)
    ensures
        timeout_of(flow, now) <= USER_EVENT_POLL_INTERVAL,
        flow matches ControlFlow::WaitUntil(d) ==> now + timeout_of(flow, now) <= if d > now { d as int } else { now as int },
{
}

/// User events waiting for the event loop, oldest first.
pub struct UserEvents<T> {
    events: Vec<T>,
}

impl<T> View for UserEvents<T> {
    type V = Seq<T>;

    closed spec fn view(&self) -> Seq<T> {
        self.events@
    }
}

impl<T> UserEvents<T> {
    pub fn new() -> (r: Self)
        ensures
            r@ == Seq::<T>::empty(),
    {
        UserEvents { events: Vec::new() }
    }

    /// Queues `event` behind those already waiting.
    pub fn send_event(&mut self, event: T)
        ensures
            final(self)@ == old(self)@.push(event),
    {
        self.events.push(event);
    }

    /// Takes every waiting event, oldest first, leaving the queue empty.
    pub fn drain(&mut self) -> (r: Vec<T>)
        ensures
            r@ == old(self)@,
            final(self)@ == Seq::<T>::empty(),
    {
        let mut taken = Vec::new();
        std::mem::swap(&mut taken, &mut self.events);
        taken
    }
}

} // verus!

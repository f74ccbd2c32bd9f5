//! Pointer, keyboard and drag-and-drop focus of a Wayland seat: which
//! window the events the compositor reports go to, including windows that
//! let the pointer pass through to the one below.

use vstd::prelude::*;
use crate::platform::{CursorIcon, WindowId};

verus! {

/// Which windows the pointer, the keyboard and a drag-and-drop are on, as
/// the compositor last reported them.
#[derive(Clone, Copy, Debug, PartialEq, Eq, Structural)]
pub struct SeatFocus {
    /// The window the pointer is over, unless that one lets it pass through.
    pub pointer_focus: Option<WindowId>,
    /// The last window that took the pointer.
    pub last_pointer_target: Option<WindowId>,
    /// Whether the pointer is over a window that lets it pass through.
    pub pointer_over_passthrough: bool,
    /// Serial of the pointer's last entry, which cursor changes must quote.
    pub cursor_serial: Option<u32>,
    /// The window with keyboard focus.
    pub keyboard_focus: Option<WindowId>,
    /// The window a drag-and-drop is over.
    pub drag_target: Option<WindowId>,
}

/// Where pointer motion, buttons and scrolling go: the last window that
/// took the pointer while it is over a pass-through window, else the
/// window it is over.
pub open spec fn pointer_target_of(seat: SeatFocus) -> Option<WindowId> {
    if seat.pointer_over_passthrough { seat.last_pointer_target } else { seat.pointer_focus }
}

/// The cursor shapes to set for `requests`: those for the focused window,
/// in order, each under the serial of the pointer's entry.
pub open spec fn shapes_for(requests: Seq<(WindowId, CursorIcon)>, focus: WindowId, serial: u32) -> Seq<(u32, CursorIcon)>
    decreases requests.len(),
{
    if requests.len() == 0 {
        Seq::empty()
    } else {
        let rest = shapes_for(requests.drop_last(), focus, serial);
        if requests.last().0 == focus { rest.push((serial, requests.last().1)) } else { rest }
    }
}

/// The text of a keymap the compositor hands over: its bytes without the
/// NUL padding that ends them.
pub fn keymap_text(bytes: Vec<u8>) -> (r: Vec<u8>)
    ensures
        r@ == bytes@.take(r@.len() as int),
        r@.len() == 0 || r@.last() != 0,
        forall|i: int| r@.len() <= i < bytes@.len() ==> #[trigger] bytes@[i] == 0,
{
    let mut text = bytes;
    let ghost all = text@;
    while text.len() > 0 && text[text.len() - 1] == 0
        invariant
            text@ == all.take(text@.len() as int),
            text@.len() <= all.len(),
            forall|i: int| text@.len() <= i < all.len() ==> #[trigger] all[i] == 0,
        decreases text@.len(),
    {
        text.pop();
    }
    text
}

fn is_window(focus: Option<WindowId>, window: WindowId) -> (r: bool)
    ensures
        r == (focus == Some(window)),
{
    match focus {
        Some(w) => w == window,
        None => false,
    }
}

impl SeatFocus {
    /// Nothing focused.
    pub fn new() -> (r: Self)
        ensures
            r.pointer_focus is None,
            r.last_pointer_target is None,
            !r.pointer_over_passthrough,
            r.cursor_serial is None,
            r.keyboard_focus is None,
            r.drag_target is None,
    {
        SeatFocus {
            pointer_focus: None,
            last_pointer_target: None,
            pointer_over_passthrough: false,
            cursor_serial: None,
            keyboard_focus: None,
            drag_target: None,
        }
    }

    /// The window that pointer motion, buttons and scrolling go to.
    pub fn pointer_target(&self) -> (r: Option<WindowId>)
        ensures
            r == pointer_target_of(*self),
    {
        if self.pointer_over_passthrough { self.last_pointer_target } else { self.pointer_focus }
    }

    /// The pointer entered `window` under `serial`. Returns the window that
    /// the cursor's entry position goes to: `window` itself, or, when
    /// `window` lets the pointer pass through, the last window that took it
    /// (whose focus is kept).
    pub fn pointer_entered(&mut self, window: WindowId, passthrough: bool, serial: u32) -> (target: Option<WindowId>)
        ensures
            final(self).pointer_over_passthrough == passthrough,
            final(self).keyboard_focus == old(self).keyboard_focus,
            final(self).drag_target == old(self).drag_target,
            passthrough ==> {
                &&& target == old(self).last_pointer_target
                &&& final(self).pointer_focus == old(self).pointer_focus
                &&& final(self).last_pointer_target == old(self).last_pointer_target
                &&& final(self).cursor_serial == old(self).cursor_serial
            },
            !passthrough ==> {
                &&& target == Some(window)
                &&& final(self).pointer_focus == Some(window)
                &&& final(self).last_pointer_target == Some(window)
                &&& final(self).cursor_serial == Some(serial)
            },
            target == pointer_target_of(*final(self)),
    {
        self.pointer_over_passthrough = passthrough;
        if passthrough {
            self.last_pointer_target
        } else {
            self.pointer_focus = Some(window);
            self.last_pointer_target = Some(window);
            self.cursor_serial = Some(serial);
            Some(window)
        }
    }

    /// The pointer left `window`. Returns the window to tell that the
    /// cursor left: `window`, when it held the pointer focus, which is then
    /// dropped with the entry serial.
    pub fn pointer_left(&mut self, window: WindowId, passthrough: bool) -> (left: Option<WindowId>)
        ensures
            final(self).keyboard_focus == old(self).keyboard_focus,
            final(self).last_pointer_target == old(self).last_pointer_target,
            final(self).drag_target == old(self).drag_target,
            passthrough ==> {
                &&& left is None
                &&& !final(self).pointer_over_passthrough
                &&& final(self).pointer_focus == old(self).pointer_focus
                &&& final(self).cursor_serial == old(self).cursor_serial
            },
            !passthrough && old(self).pointer_focus == Some(window) ==> {
                &&& left == Some(window)
                &&& final(self).pointer_focus is None
                &&& final(self).cursor_serial is None
                &&& final(self).pointer_over_passthrough == old(self).pointer_over_passthrough
            },
            !passthrough && old(self).pointer_focus != Some(window) ==> {
                &&& left is None
                &&& *final(self) == *old(self)
            },
    {
        if passthrough {
            self.pointer_over_passthrough = false;
            return None;
        }
        if is_window(self.pointer_focus, window) {
            self.pointer_focus = None;
            self.cursor_serial = None;
            Some(window)
        } else {
            None
        }
    }

    /// `window` took the keyboard focus.
    pub fn keyboard_entered(&mut self, window: WindowId)
        ensures
            *final(self) == (SeatFocus { keyboard_focus: Some(window), ..*old(self) }),
    {
        self.keyboard_focus = Some(window);
    }

    /// `window` lost the keyboard focus (if it had it).
    pub fn keyboard_left(&mut self, window: WindowId)
        ensures
            final(self).keyboard_focus == (if old(self).keyboard_focus == Some(window) { None } else { old(self).keyboard_focus }),
            *final(self) == (SeatFocus { keyboard_focus: final(self).keyboard_focus, ..*old(self) }),
    {
        if is_window(self.keyboard_focus, window) {
            self.keyboard_focus = None;
        }
    }

    /// `window` was closed: it keeps neither pointer nor keyboard focus.
    pub fn window_closed(&mut self, window: WindowId)
        ensures
            final(self).pointer_focus == (if old(self).pointer_focus == Some(window) { None } else { old(self).pointer_focus }),
            final(self).keyboard_focus == (if old(self).keyboard_focus == Some(window) { None } else { old(self).keyboard_focus }),
            final(self).last_pointer_target == old(self).last_pointer_target,
            final(self).pointer_over_passthrough == old(self).pointer_over_passthrough,
            final(self).cursor_serial == old(self).cursor_serial,
            final(self).drag_target == old(self).drag_target,
    {
        if is_window(self.pointer_focus, window) {
            self.pointer_focus = None;
        }
        self.keyboard_left(window);
    }

    /// A drag-and-drop entered `window`, which it is now over.
    pub fn drag_entered(&mut self, window: WindowId)
        ensures
            *final(self) == (SeatFocus { drag_target: Some(window), ..*old(self) }),
    {
        self.drag_target = Some(window);
    }

    /// The window a drag-and-drop moving now is over, if any.
    pub fn drag_moved(&self) -> (r: Option<WindowId>)
        ensures
            r == self.drag_target,
    {
        self.drag_target
    }

    /// The drag-and-drop left its window, or was dropped on it: returns
    /// that window, which it is over no longer.
    pub fn drag_ended(&mut self) -> (r: Option<WindowId>)
        ensures
            r == old(self).drag_target,
            *final(self) == (SeatFocus { drag_target: None, ..*old(self) }),
    {
        let target = self.drag_target;
        self.drag_target = None;
        target
    }

    /// The cursor shapes to set for `requests` (window, icon): none unless
    /// the pointer focus and its entry serial are known; then those asked
    /// for the focused window, in order, each under that serial.
    pub fn cursor_shapes(&self, requests: &Vec<(WindowId, CursorIcon)>) -> (r: Vec<(u32, CursorIcon)>)
        ensures
            r@ == match (self.cursor_serial, self.pointer_focus) {
                (Some(serial), Some(focus)) => shapes_for(requests@, focus, serial),
                _ => Seq::empty(),
            },
    {
        let mut out: Vec<(u32, CursorIcon)> = Vec::new();
        let (serial, focus) = match (self.cursor_serial, self.pointer_focus) {
            (Some(serial), Some(focus)) => (serial, focus),
            _ => { return out; },
        };
        let mut i: usize = 0;
        while i < requests.len()
            invariant
                i <= requests@.len(),
                out@ == shapes_for(requests@.take(i as int), focus, serial),
            decreases requests@.len() - i,
        {
            let (window, icon) = requests[i];
            proof {
                assert(requests@.take(i as int + 1).drop_last() =~= requests@.take(i as int));
            }
            if window == focus {
                out.push((serial, icon));
            }
            i = i + 1;
        }
        proof {
            assert(requests@.take(requests@.len() as int) =~= requests@);
        }
        out
    }
}

} // verus!

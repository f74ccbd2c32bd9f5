//! How a window reacts to the pointer: hover, the cursor shape, focus,
//! clicks, drags of draggable widgets and the click a drag swallows unless
//! the pointer moved. Each event, with what the scene reports under the
//! pointer, takes the window's pointer state to the next one and a list of
//! actions for the window to carry out (calling widget callbacks, setting
//! the cursor, asking for a repaint). Geometry stays with the caller: it
//! reports whether the pointer moved far enough to turn a press into a
//! drag, and what the scene holds under the pointer.

use vstd::prelude::*;
use crate::platform::{CursorIcon, ResizeDirection};

verus! {

/// A press on a draggable widget that also takes clicks: the click it
/// would give, held back until the button is released without the
/// pointer having moved far.
#[derive(Clone, Copy, Debug, PartialEq, Eq, Structural)]
pub struct HeldClick {
    /// The widget takes a click without a position.
    pub click: bool,
    /// The widget takes a click at the pointer position.
    pub click_at: bool,
    /// The pointer moved far since the press.
    pub moved: bool,
}

/// What a window remembers of the pointer between events.
#[derive(Clone, Copy, Debug, PartialEq, Eq, Structural)]
pub struct PointerState {
    /// The pointer is over the window.
    pub inside: bool,
    /// The left button went down in the window and is still down.
    pub pressed: bool,
    /// The cursor shape last set.
    pub cursor: CursorIcon,
    /// The hovered widget, by the identity of its rect.
    pub hovered: Option<u64>,
    /// The focused widget.
    pub focused: Option<u64>,
    /// The widget being dragged.
    pub dragging: Option<u64>,
    /// A drag-end callback is waiting for the drag to end.
    pub drag_end: bool,
    /// A drag update is waiting for the next frame.
    pub pending_drag: bool,
    /// A click held back by a press on a draggable widget.
    pub held_click: Option<HeldClick>,
}

/// A draggable widget: its index in the scene, and whether it has a
/// drag-end callback.
#[derive(Clone, Copy, Debug, PartialEq, Eq, Structural)]
pub struct Draggable {
    pub index: u64,
    pub has_end: bool,
}

/// What the scene holds under the pointer, as the caller found it.
#[derive(Clone, Copy, Debug, PartialEq, Eq, Structural)]
pub struct PointerHits {
    /// The window edge the pointer is on, for resizing an undecorated
    /// window.
    pub resize: Option<ResizeDirection>,
    /// The cursor the widget under the pointer asks for.
    pub cursor: Option<CursorIcon>,
    /// The hoverable widget under the pointer, by the identity of its rect.
    pub hover: Option<u64>,
    /// Whether a scene is there to hit at all.
    pub scene: bool,
    /// A widget under the pointer takes a click.
    pub click: bool,
    /// A widget under the pointer takes a click at the pointer position.
    pub click_at: bool,
    /// The focusable widget under the pointer.
    pub focus: Option<u64>,
    /// The draggable widget under the pointer.
    pub drag: Option<Draggable>,
    /// A widget under the pointer wants the pointer position when pressed.
    pub drag_anchor: bool,
}

/// A pointer event, reduced to what the state machine decides on.
#[derive(Clone, Copy, Debug, PartialEq, Eq, Structural)]
pub enum PointerEvent {
    /// The pointer moved inside the window; `moved_far` when it is now at
    /// least four logical pixels from where a held-back click was pressed.
    Moved { moved_far: bool },
    /// A drag-and-drop of the window system entered or moved over the
    /// window.
    DragOver,
    /// A drag-and-drop of the window system left the window or dropped.
    DragEnded,
    /// The left button went down.
    LeftPressed,
    /// The left button went up.
    LeftReleased,
    /// The pointer left the window.
    Left,
    /// The window lost keyboard focus.
    FocusLost,
}

/// Something the window must do after a pointer event, in order.
#[derive(Clone, Copy, Debug, PartialEq, Eq, Structural)]
pub enum PointerAction {
    /// Show this cursor shape.
    SetCursor(CursorIcon),
    /// Tell the previously hovered widget it is no longer hovered.
    Unhover,
    /// Tell the widget with this rect that it is hovered.
    Hover(u64),
    /// Recompute the pending drag update from the pointer position.
    RefreshDrag,
    /// Start resizing the window from this edge.
    StartResize(ResizeDirection),
    /// Restart the text caret's blink, focus having changed.
    RestartCaret,
    /// Hand the pressed widget the pointer position inside it.
    AnchorDrag,
    /// Start dragging this widget and hand it the pointer position.
    StartDrag(u64),
    /// Call the click-at-position callback under the pointer.
    ClickAt,
    /// Call the click callback under the pointer.
    Click,
    /// Call the drag-end callback.
    EndDrag,
    /// Call the window's focus-lost callback.
    FocusLost,
    /// Lay out and paint again.
    InvalidateLayout,
    /// Paint again.
    InvalidatePaint,
}

/// The cursor shape for resizing from `direction`.
pub open spec fn resize_cursor_of(direction: ResizeDirection) -> CursorIcon {
    match direction {
        ResizeDirection::East | ResizeDirection::West => CursorIcon::ResizeHorizontal,
        ResizeDirection::North | ResizeDirection::South => CursorIcon::ResizeVertical,
        ResizeDirection::NorthWest | ResizeDirection::SouthEast => CursorIcon::ResizeNwse,
        ResizeDirection::NorthEast | ResizeDirection::SouthWest => CursorIcon::ResizeNesw,
    }
}

/// The cursor shape for resizing from `direction`.
pub fn resize_cursor(direction: ResizeDirection) -> (r: CursorIcon)
    ensures
        r == resize_cursor_of(direction),
{
    match direction {
        ResizeDirection::East | ResizeDirection::West => CursorIcon::ResizeHorizontal,
        ResizeDirection::North | ResizeDirection::South => CursorIcon::ResizeVertical,
        ResizeDirection::NorthWest | ResizeDirection::SouthEast => CursorIcon::ResizeNwse,
        ResizeDirection::NorthEast | ResizeDirection::SouthWest => CursorIcon::ResizeNesw,
    }
}

/// The cursor the pointer should show: the resize cursor on a window
/// edge, else the one the widget under the pointer asks for, else the
/// default.
pub open spec fn hovered_cursor(hits: PointerHits) -> CursorIcon {
    match hits.resize {
        Some(d) => resize_cursor_of(d),
        None => match hits.cursor {
            Some(c) => c,
            None => CursorIcon::Default,
        },
    }
}

/// Whether the hovered widget stays the same: one was hovered and the
/// same rect is under the pointer.
pub open spec fn hover_kept(state: PointerState, hits: PointerHits) -> bool {
    state.hovered is Some && hits.hover == state.hovered
}

/// The actions of a move: the cursor when it changes, then the hover
/// change, then a drag refresh while dragging or a repaint when the hover
/// changed.
pub open spec fn move_actions(state: PointerState, hits: PointerHits) -> Seq<PointerAction> {
    let cursor = hovered_cursor(hits);
    let set_cursor = if cursor != state.cursor { seq![PointerAction::SetCursor(cursor)] } else { Seq::empty() };
    let kept = hover_kept(state, hits);
    let unhover = if !kept && state.hovered is Some { seq![PointerAction::Unhover] } else { Seq::empty() };
    let hover = if !kept && hits.hover is Some { seq![PointerAction::Hover(hits.hover->0)] } else { Seq::empty() };
    let after = if state.dragging is Some {
        seq![PointerAction::RefreshDrag]
    } else if !kept {
        seq![PointerAction::InvalidatePaint]
    } else {
        Seq::empty()
    };
    set_cursor + unhover + hover + after
}

/// The state after a move.
pub open spec fn moved_state(state: PointerState, hits: PointerHits, moved_far: bool) -> PointerState {
    PointerState {
        inside: true,
        cursor: hovered_cursor(hits),
        hovered: if hover_kept(state, hits) { state.hovered } else { hits.hover },
        held_click: match state.held_click {
            Some(h) => Some(HeldClick { moved: h.moved || moved_far, ..h }),
            None => None,
        },
        ..state
    }
}

/// The actions of a press that reaches the scene (no resize edge, a
/// scene there): focus, anchor, then a drag start, or else a click.
pub open spec fn press_actions(state: PointerState, hits: PointerHits) -> Seq<PointerAction> {
    let caret = if hits.focus != state.focused { seq![PointerAction::RestartCaret] } else { Seq::empty() };
    let anchor = if hits.drag_anchor { seq![PointerAction::AnchorDrag] } else { Seq::empty() };
    let rest = match hits.drag {
        Some(d) => seq![PointerAction::StartDrag(d.index), PointerAction::InvalidateLayout],
        None => if hits.click_at {
            seq![PointerAction::ClickAt, PointerAction::InvalidateLayout]
        } else if hits.click {
            seq![PointerAction::Click, PointerAction::InvalidateLayout]
        } else {
            Seq::empty()
        },
    };
    caret + anchor + rest
}

/// The state after a press that reaches the scene.
pub open spec fn pressed_state(state: PointerState, hits: PointerHits) -> PointerState {
    let base = PointerState {
        pressed: true,
        focused: hits.focus,
        held_click: if hits.drag is Some && (hits.click || hits.click_at) {
            Some(HeldClick { click: hits.click, click_at: hits.click_at, moved: false })
        } else {
            state.held_click
        },
        ..state
    };
    match hits.drag {
        Some(d) => PointerState { dragging: Some(d.index), drag_end: d.has_end, ..base },
        None => base,
    }
}

/// The actions of a release: the drag end, the held-back click when the
/// pointer did not move far, then a repaint.
pub open spec fn release_actions(state: PointerState) -> Seq<PointerAction> {
    let end = if state.drag_end { seq![PointerAction::EndDrag] } else { Seq::empty() };
    let click = match state.held_click {
        Some(h) => if h.moved {
            Seq::empty()
        } else if h.click_at {
            seq![PointerAction::ClickAt, PointerAction::InvalidateLayout]
        } else if h.click {
            seq![PointerAction::Click, PointerAction::InvalidateLayout]
        } else {
            seq![PointerAction::InvalidateLayout]
        },
        None => Seq::empty(),
    };
    end + click + seq![PointerAction::InvalidatePaint]
}

/// The next pointer state and the actions for `event`, given what the
/// scene holds under the pointer.
pub open spec fn pointer_step_of(state: PointerState, event: PointerEvent, hits: PointerHits) -> (PointerState, Seq<PointerAction>) {
    match event {
        PointerEvent::Moved { moved_far } => (moved_state(state, hits, moved_far), move_actions(state, hits)),
        PointerEvent::DragOver => (
            state,
            if state.dragging is Some { seq![PointerAction::RefreshDrag] } else { Seq::empty() },
        ),
        PointerEvent::DragEnded => (
            PointerState { dragging: None, pending_drag: false, drag_end: false, ..state },
            if state.drag_end {
                seq![PointerAction::EndDrag, PointerAction::InvalidatePaint]
            } else {
                seq![PointerAction::InvalidatePaint]
            },
        ),
        PointerEvent::LeftPressed => match hits.resize {
            Some(d) => (
                PointerState { pressed: true, ..state },
                seq![PointerAction::InvalidatePaint, PointerAction::StartResize(d)],
            ),
            None => if !hits.scene {
                (PointerState { pressed: true, ..state }, seq![PointerAction::InvalidatePaint])
            } else {
                (pressed_state(state, hits), seq![PointerAction::InvalidatePaint] + press_actions(state, hits))
            },
        },
        PointerEvent::LeftReleased => (
            PointerState { dragging: None, pending_drag: false, pressed: false, drag_end: false, held_click: None, ..state },
            release_actions(state),
        ),
        PointerEvent::Left => (
            PointerState { inside: false, hovered: None, ..state },
            if state.hovered is Some {
                seq![PointerAction::Unhover, PointerAction::InvalidatePaint]
            } else {
                seq![PointerAction::InvalidatePaint]
            },
        ),
        PointerEvent::FocusLost => (
            PointerState { pressed: false, dragging: None, pending_drag: false, ..state },
            seq![PointerAction::InvalidatePaint, PointerAction::FocusLost],
        ),
    }
}

impl PointerState {
    /// The pointer outside, nothing pressed, hovered, focused or dragged,
    /// and the default cursor.
    pub fn new() -> (r: Self)
        ensures
            r == (PointerState {
                inside: false,
                pressed: false,
                cursor: CursorIcon::Default,
                hovered: None,
                focused: None,
                dragging: None,
                drag_end: false,
                pending_drag: false,
                held_click: None,
            }),
    {
        PointerState {
            inside: false,
            pressed: false,
            cursor: CursorIcon::Default,
            hovered: None,
            focused: None,
            dragging: None,
            drag_end: false,
            pending_drag: false,
            held_click: None,
        }
    }
}

fn same_rect(a: Option<u64>, b: Option<u64>) -> (r: bool)
    ensures
        r == (a is Some && b == a),
{
    match (a, b) {
        (Some(x), Some(y)) => x == y,
        _ => false,
    }
}

fn same_focus(a: Option<u64>, b: Option<u64>) -> (r: bool)
    ensures
        r == (a == b),
{
    match (a, b) {
        (Some(x), Some(y)) => x == y,
        (None, None) => true,
        _ => false,
    }
}

fn step_moved(state: PointerState, hits: PointerHits, moved_far: bool) -> (r: (PointerState, Vec<PointerAction>))
    ensures
        r.0 == moved_state(state, hits, moved_far),
        r.1@ == move_actions(state, hits),
{
    let mut actions: Vec<PointerAction> = Vec::new();
    let cursor = match hits.resize {
        Some(d) => resize_cursor(d),
        None => match hits.cursor {
            Some(c) => c,
            None => CursorIcon::Default,
        },
    };
    if cursor != state.cursor {
        actions.push(PointerAction::SetCursor(cursor));
    }
    let kept = same_rect(state.hovered, hits.hover);
    if !kept {
        if state.hovered.is_some() {
            actions.push(PointerAction::Unhover);
        }
        match hits.hover {
            Some(rect) => actions.push(PointerAction::Hover(rect)),
            None => {},
        }
    }
    if state.dragging.is_some() {
        actions.push(PointerAction::RefreshDrag);
    } else if !kept {
        actions.push(PointerAction::InvalidatePaint);
    }
    let held_click = match state.held_click {
        Some(h) => Some(HeldClick { moved: h.moved || moved_far, ..h }),
        None => None,
    };
    let next = PointerState {
        inside: true,
        cursor,
        hovered: if kept { state.hovered } else { hits.hover },
        held_click,
        ..state
    };
    assert(actions@ =~= move_actions(state, hits));
    (next, actions)
}

fn step_pressed(state: PointerState, hits: PointerHits) -> (r: (PointerState, Vec<PointerAction>))
    ensures
        r.0 == pointer_step_of(state, PointerEvent::LeftPressed, hits).0,
        r.1@ == pointer_step_of(state, PointerEvent::LeftPressed, hits).1,
{
    let mut actions: Vec<PointerAction> = Vec::new();
    actions.push(PointerAction::InvalidatePaint);
    match hits.resize {
        Some(d) => {
            actions.push(PointerAction::StartResize(d));
            assert(actions@ =~= seq![PointerAction::InvalidatePaint, PointerAction::StartResize(d)]);
            return (PointerState { pressed: true, ..state }, actions);
        },
        None => {},
    }
    if !hits.scene {
        assert(actions@ =~= seq![PointerAction::InvalidatePaint]);
        return (PointerState { pressed: true, ..state }, actions);
    }
    let has_drag = hits.drag.is_some();
    let held_click = if has_drag && (hits.click || hits.click_at) {
        Some(HeldClick { click: hits.click, click_at: hits.click_at, moved: false })
    } else {
        state.held_click
    };
    if !same_focus(hits.focus, state.focused) {
        actions.push(PointerAction::RestartCaret);
    }
    if hits.drag_anchor {
        actions.push(PointerAction::AnchorDrag);
    }
    let base = PointerState { pressed: true, focused: hits.focus, held_click, ..state };
    let next = match hits.drag {
        Some(d) => {
            actions.push(PointerAction::StartDrag(d.index));
            actions.push(PointerAction::InvalidateLayout);
            PointerState { dragging: Some(d.index), drag_end: d.has_end, ..base }
        },
        None => {
            if hits.click_at {
                actions.push(PointerAction::ClickAt);
                actions.push(PointerAction::InvalidateLayout);
            } else if hits.click {
                actions.push(PointerAction::Click);
                actions.push(PointerAction::InvalidateLayout);
            }
            base
        },
    };
    assert(actions@ =~= seq![PointerAction::InvalidatePaint] + press_actions(state, hits));
    (next, actions)
}

fn step_released(state: PointerState) -> (r: (PointerState, Vec<PointerAction>))
    ensures
        r.0 == (PointerState { dragging: None, pending_drag: false, pressed: false, drag_end: false, held_click: None, ..state }),
        r.1@ == release_actions(state),
{
    let mut actions: Vec<PointerAction> = Vec::new();
    if state.drag_end {
        actions.push(PointerAction::EndDrag);
    }
    match state.held_click {
        Some(h) => {
            if !h.moved {
                if h.click_at {
                    actions.push(PointerAction::ClickAt);
                } else if h.click {
                    actions.push(PointerAction::Click);
                }
                actions.push(PointerAction::InvalidateLayout);
            }
        },
        None => {},
    }
    actions.push(PointerAction::InvalidatePaint);
    assert(actions@ =~= release_actions(state));
    (PointerState { dragging: None, pending_drag: false, pressed: false, drag_end: false, held_click: None, ..state }, actions)
}

/// Takes `state` through `event`: the next state and the actions the
/// window must carry out, in order.
pub fn pointer_step(state: PointerState, event: PointerEvent, hits: PointerHits) -> (r: (PointerState, Vec<PointerAction>))
    ensures
        r.0 == pointer_step_of(state, event, hits).0,
        r.1@ == pointer_step_of(state, event, hits).1,
{
    match event {
        PointerEvent::Moved { moved_far } => step_moved(state, hits, moved_far),
        PointerEvent::LeftPressed => step_pressed(state, hits),
        PointerEvent::LeftReleased => step_released(state),
        PointerEvent::DragOver => {
            let mut actions: Vec<PointerAction> = Vec::new();
            if state.dragging.is_some() {
                actions.push(PointerAction::RefreshDrag);
            }
            assert(actions@ =~= pointer_step_of(state, event, hits).1);
            (state, actions)
        },
        PointerEvent::DragEnded => {
            let mut actions: Vec<PointerAction> = Vec::new();
            if state.drag_end {
                actions.push(PointerAction::EndDrag);
            }
            actions.push(PointerAction::InvalidatePaint);
            assert(actions@ =~= pointer_step_of(state, event, hits).1);
            (PointerState { dragging: None, pending_drag: false, drag_end: false, ..state }, actions)
        },
        PointerEvent::Left => {
            let mut actions: Vec<PointerAction> = Vec::new();
            if state.hovered.is_some() {
                actions.push(PointerAction::Unhover);
            }
            actions.push(PointerAction::InvalidatePaint);
            assert(actions@ =~= pointer_step_of(state, event, hits).1);
            (PointerState { inside: false, hovered: None, ..state }, actions)
        },
        PointerEvent::FocusLost => {
            let mut actions: Vec<PointerAction> = Vec::new();
            actions.push(PointerAction::InvalidatePaint);
            actions.push(PointerAction::FocusLost);
            assert(actions@ =~= pointer_step_of(state, event, hits).1);
            (PointerState { pressed: false, dragging: None, pending_drag: false, ..state }, actions)
        },
    }
}

/// A release never leaves a drag, a press or a held-back click behind, and
/// runs the held-back click only when the pointer did not move far.
pub proof fn lemma_release_clears_the_press(state: PointerState, hits: PointerHits)
    ensures
        ({
            let (next, actions) = pointer_step_of(state, PointerEvent::LeftReleased, hits);
            &&& next.dragging is None && !next.pressed && next.held_click is None && !next.drag_end
            &&& (state.held_click matches Some(h) && h.moved) ==> !actions.contains(PointerAction::Click)
                && !actions.contains(PointerAction::ClickAt)
        }),
{
    let actions = pointer_step_of(state, PointerEvent::LeftReleased, hits).1;
    if state.held_click matches Some(h) && h.moved {
        let end = if state.drag_end { seq![PointerAction::EndDrag] } else { Seq::<PointerAction>::empty() };
        assert(actions =~= end + Seq::<PointerAction>::empty() + seq![PointerAction::InvalidatePaint]);
        assert forall|k: int| 0 <= k < actions.len() implies actions[k] != PointerAction::Click && actions[k] != PointerAction::ClickAt by {
            if state.drag_end {
                assert(actions =~= seq![PointerAction::EndDrag, PointerAction::InvalidatePaint]);
            } else {
                assert(actions =~= seq![PointerAction::InvalidatePaint]);
            }
        }
    }
}

/// A press on a draggable widget that also takes clicks starts the drag
/// and holds the click back instead of giving it at once.
pub proof fn lemma_drag_press_holds_the_click(state: PointerState, hits: PointerHits)
    requires
        hits.resize is None,
        hits.scene,
        hits.drag is Some,
        hits.click || hits.click_at,
    ensures
        ({
            let (next, actions) = pointer_step_of(state, PointerEvent::LeftPressed, hits);
            &&& next.dragging == Some((hits.drag->0).index)
            &&& next.held_click == Some(HeldClick { click: hits.click, click_at: hits.click_at, moved: false })
            &&& !actions.contains(PointerAction::Click) && !actions.contains(PointerAction::ClickAt)
        }),
{
    let actions = pointer_step_of(state, PointerEvent::LeftPressed, hits).1;
    let caret = if hits.focus != state.focused { seq![PointerAction::RestartCaret] } else { Seq::<PointerAction>::empty() };
    let anchor = if hits.drag_anchor { seq![PointerAction::AnchorDrag] } else { Seq::<PointerAction>::empty() };
    let rest = seq![PointerAction::StartDrag((hits.drag->0).index), PointerAction::InvalidateLayout];
    assert(actions =~= seq![PointerAction::InvalidatePaint] + caret + anchor + rest);
    assert forall|k: int| 0 <= k < actions.len() implies actions[k] != PointerAction::Click && actions[k] != PointerAction::ClickAt by {
        let front = seq![PointerAction::InvalidatePaint] + caret + anchor;
        if k < front.len() {
            if k == 0 {
            } else if k - 1 < caret.len() {
                assert(actions[k] == caret[k - 1]);
            } else {
                assert(actions[k] == anchor[k - 1 - caret.len()]);
            }
        } else {
            assert(actions[k] == rest[k - front.len()]);
        }
    }
}

/// A move that changes the hovered widget first tells the widget hovered
/// before (if any) that it is no longer hovered, and only then tells the
/// new one (if any) that it is; afterwards the new one is the hovered
/// widget. A move that keeps the hovered widget tells neither.
pub proof fn lemma_hover_changes_unhover_first(state: PointerState, hits: PointerHits, moved_far: bool)
    ensures
        ({
            let (next, actions) = pointer_step_of(state, PointerEvent::Moved { moved_far }, hits);
            &&& next.hovered == (if state.hovered is Some && hits.hover == state.hovered { state.hovered } else { hits.hover })
            &&& (state.hovered is Some && hits.hover != state.hovered) ==> exists|i: int| {
                &&& 0 <= i < actions.len()
                &&& actions[i] == PointerAction::Unhover
                &&& forall|k: int| 0 <= k < i ==> !(#[trigger] actions[k] is Hover)
                &&& hits.hover is Some ==> exists|j: int| i < j < actions.len() && actions[j] == PointerAction::Hover(hits.hover->0)
            }
            &&& (state.hovered is None && hits.hover is Some)
                ==> exists|j: int| 0 <= j < actions.len() && actions[j] == PointerAction::Hover(hits.hover->0)
            &&& (state.hovered is Some && hits.hover == state.hovered) ==>
                forall|k: int| 0 <= k < actions.len() ==> !(#[trigger] actions[k] is Hover) && actions[k] != PointerAction::Unhover
        }),
{
    let actions = move_actions(state, hits);
    let cursor = hovered_cursor(hits);
    let set_cursor = if cursor != state.cursor { seq![PointerAction::SetCursor(cursor)] } else { Seq::<PointerAction>::empty() };
    let kept = hover_kept(state, hits);
    let unhover = if !kept && state.hovered is Some { seq![PointerAction::Unhover] } else { Seq::<PointerAction>::empty() };
    let hover = if !kept && hits.hover is Some { seq![PointerAction::Hover(hits.hover->0)] } else { Seq::<PointerAction>::empty() };
    let after = if state.dragging is Some {
        seq![PointerAction::RefreshDrag]
    } else if !kept {
        seq![PointerAction::InvalidatePaint]
    } else {
        Seq::<PointerAction>::empty()
    };
    assert(actions == set_cursor + unhover + hover + after);
    let c = set_cursor.len() as int;
    if state.hovered is Some && hits.hover != state.hovered {
        assert(actions[c] == PointerAction::Unhover);
        assert forall|k: int| 0 <= k < c implies !(#[trigger] actions[k] is Hover) by {
            assert(actions[k] == set_cursor[k]);
        }
        if hits.hover is Some {
            assert(actions[c + 1] == PointerAction::Hover(hits.hover->0));
        }
    }
    if state.hovered is None && hits.hover is Some {
        assert(actions[c] == PointerAction::Hover(hits.hover->0));
    }
    if state.hovered is Some && hits.hover == state.hovered {
        assert forall|k: int| 0 <= k < actions.len() implies !(#[trigger] actions[k] is Hover) && actions[k] != PointerAction::Unhover by {
            if k < c {
                assert(actions[k] == set_cursor[k]);
            } else {
                assert(actions[k] == after[k - c]);
            }
        }
    }
}

/// A move shows the resize cursor on a window edge, else the cursor the
/// widget under the pointer asks for, else the default one, and sets it
/// only when it changes; while a widget is dragged the move refreshes the
/// drag.
pub proof fn lemma_move_sets_the_cursor(state: PointerState, hits: PointerHits, moved_far: bool)
    ensures
        ({
            let (next, actions) = pointer_step_of(state, PointerEvent::Moved { moved_far }, hits);
            let wanted = match hits.resize {
                Some(ResizeDirection::East) | Some(ResizeDirection::West) => CursorIcon::ResizeHorizontal,
                Some(ResizeDirection::North) | Some(ResizeDirection::South) => CursorIcon::ResizeVertical,
                Some(ResizeDirection::NorthWest) | Some(ResizeDirection::SouthEast) => CursorIcon::ResizeNwse,
                Some(_) => CursorIcon::ResizeNesw,
                None => match hits.cursor { Some(c) => c, None => CursorIcon::Default },
            };
            &&& next.cursor == wanted
            &&& next.inside
            &&& (wanted != state.cursor <==> actions.len() > 0 && actions[0] == PointerAction::SetCursor(wanted))
            &&& state.dragging is Some ==> actions.last() == PointerAction::RefreshDrag
        }),
{
    let actions = move_actions(state, hits);
    let cursor = hovered_cursor(hits);
    let set_cursor = if cursor != state.cursor { seq![PointerAction::SetCursor(cursor)] } else { Seq::<PointerAction>::empty() };
    let kept = hover_kept(state, hits);
    let unhover = if !kept && state.hovered is Some { seq![PointerAction::Unhover] } else { Seq::<PointerAction>::empty() };
    let hover = if !kept && hits.hover is Some { seq![PointerAction::Hover(hits.hover->0)] } else { Seq::<PointerAction>::empty() };
    let after = if state.dragging is Some {
        seq![PointerAction::RefreshDrag]
    } else if !kept {
        seq![PointerAction::InvalidatePaint]
    } else {
        Seq::<PointerAction>::empty()
    };
    assert(actions == set_cursor + unhover + hover + after);
    if cursor == state.cursor && actions.len() > 0 {
        if unhover.len() > 0 {
            assert(actions[0] == PointerAction::Unhover);
        } else if hover.len() > 0 {
            assert(actions[0] == hover[0]);
        } else {
            assert(actions[0] == after[0]);
        }
    }
}

/// A press that reaches the scene, off a draggable widget, calls the
/// click-at-position callback when there is one, else the plain click
/// callback, and focuses the widget under the pointer (or none).
pub proof fn lemma_press_clicks(state: PointerState, hits: PointerHits)
    requires
        hits.resize is None,
        hits.scene,
        hits.drag is None,
    ensures
        ({
            let (next, actions) = pointer_step_of(state, PointerEvent::LeftPressed, hits);
            &&& next.focused == hits.focus
            &&& next.pressed
            &&& next.dragging == state.dragging
            &&& hits.click_at ==> actions.contains(PointerAction::ClickAt) && !actions.contains(PointerAction::Click)
            &&& !hits.click_at && hits.click ==> actions.contains(PointerAction::Click) && !actions.contains(PointerAction::ClickAt)
            &&& !hits.click_at && !hits.click ==> !actions.contains(PointerAction::Click) && !actions.contains(PointerAction::ClickAt)
        }),
{
    let actions = pointer_step_of(state, PointerEvent::LeftPressed, hits).1;
    let caret = if hits.focus != state.focused { seq![PointerAction::RestartCaret] } else { Seq::<PointerAction>::empty() };
    let anchor = if hits.drag_anchor { seq![PointerAction::AnchorDrag] } else { Seq::<PointerAction>::empty() };
    let rest = if hits.click_at {
        seq![PointerAction::ClickAt, PointerAction::InvalidateLayout]
    } else if hits.click {
        seq![PointerAction::Click, PointerAction::InvalidateLayout]
    } else {
        Seq::<PointerAction>::empty()
    };
    let front = seq![PointerAction::InvalidatePaint] + caret + anchor;
    assert(actions =~= front + rest);
    assert forall|k: int| 0 <= k < front.len() implies front[k] != PointerAction::Click && front[k] != PointerAction::ClickAt by {
        if k == 0 {
        } else if k - 1 < caret.len() {
            assert(front[k] == caret[k - 1]);
        } else {
            assert(front[k] == anchor[k - 1 - caret.len()]);
        }
    }
    assert forall|x: PointerAction| #[trigger] actions.contains(x) <==> (front.contains(x) || rest.contains(x)) by {
        if actions.contains(x) {
            let k = choose|k: int| 0 <= k < actions.len() && actions[k] == x;
            if k < front.len() {
                assert(front[k] == x);
            } else {
                assert(rest[k - front.len()] == x);
            }
        }
        if front.contains(x) {
            let k = choose|k: int| 0 <= k < front.len() && front[k] == x;
            assert(actions[k] == x);
        }
        if rest.contains(x) {
            let k = choose|k: int| 0 <= k < rest.len() && rest[k] == x;
            assert(actions[front.len() + k] == x);
        }
    }
    if hits.click_at {
        assert(rest[0] == PointerAction::ClickAt);
        assert(!rest.contains(PointerAction::Click)) by {
            if rest.contains(PointerAction::Click) {
                let k = choose|k: int| 0 <= k < rest.len() && rest[k] == PointerAction::Click;
            }
        }
    } else if hits.click {
        assert(rest[0] == PointerAction::Click);
        assert(!rest.contains(PointerAction::ClickAt)) by {
            if rest.contains(PointerAction::ClickAt) {
                let k = choose|k: int| 0 <= k < rest.len() && rest[k] == PointerAction::ClickAt;
            }
        }
    }
    assert(!front.contains(PointerAction::Click) && !front.contains(PointerAction::ClickAt)) by {
        if front.contains(PointerAction::Click) {
            let k = choose|k: int| 0 <= k < front.len() && front[k] == PointerAction::Click;
        }
        if front.contains(PointerAction::ClickAt) {
            let k = choose|k: int| 0 <= k < front.len() && front[k] == PointerAction::ClickAt;
        }
    }
}

} // verus!

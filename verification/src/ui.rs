//! The plain-value model behind button focus handling.
//!
//! The embedding application turns its windowing events into `PointerEvent`
//! values and keeps a `UIState` in sync with the pointer button and window
//! size; the focus transition itself is ordinary logic on plain values and
//! is verified here. Buttons only recognise the left button; containment is
//! inclusive on all four edges.

use vstd::prelude::*;

verus! {

/// Shared input state across all UI components: kept in sync with the left
/// mouse button and with the size of the drawing surface.
pub struct UIState {
    /// Always kept in sync with the left mouse button.
    pub button_down: bool,
    /// Always kept in sync with the size of the drawing surface; used when
    /// components are laid out anew.
    pub window_size: (u32, u32),
}

/// Button state for rendering, advanced by pointer events.
#[derive(Clone, Copy, PartialEq, Eq, Structural, Debug)]
pub enum FocusState {
    Idle,
    Hovered,
    Pressed,
}

/// How an image's dimensions are matched to those of the content it fills:
/// naive stretch over the destination, or shrinking to keep the aspect
/// ratio.
#[derive(Clone, Copy, PartialEq, Eq, Structural, Debug)]
pub enum FitType {
    Stretch,
    Shrink,
}

/// A button's screen-space bound: top-left corner plus extent.
#[derive(Clone, Copy, PartialEq, Eq, Structural, Debug)]
pub struct Bound {
    pub x: i32,
    pub y: i32,
    pub w: u32,
    pub h: u32,
}

/// A pointer event, already reduced to plain values by the embedding
/// application. Only the left button reaches the buttons.
#[derive(Clone, Copy, PartialEq, Eq, Structural, Debug)]
pub enum PointerEvent {
    MouseMotion { x: i32, y: i32 },
    LeftDown { x: i32, y: i32 },
    LeftUp { x: i32, y: i32 },
}

/// Containment, inclusive on all four edges.
pub open spec fn spec_contains(b: Bound, px: int, py: int) -> bool {
    &&& b.x <= px <= b.x + b.w
    &&& b.y <= py <= b.y + b.h
}

/// Whether the point lies in the bound (inclusive edges).
pub fn contains_point(b: &Bound, px: i32, py: i32) -> (r: bool)
    ensures
        r == spec_contains(*b, px as int, py as int),
{
    let xl = px as i64;
    let yl = py as i64;
    (b.x as i64) <= xl && xl <= (b.x as i64) + (b.w as i64) && (b.y as i64) <= yl && yl <= (b.y
        as i64) + (b.h as i64)
}

/// The focus-state transition of a button, and whether the event released
/// (activated) it. Moving outside the bound idles the button; moving inside
/// hovers it, or presses it while the left button is held; a left press
/// inside presses it; a left release inside activates it and leaves it
/// hovered. Everything else leaves the state alone.
pub open spec fn spec_button_transition(
    focus: FocusState,
    b: Bound,
    st: UIState,
    e: PointerEvent,
) -> (FocusState, bool) {
    match e {
        PointerEvent::MouseMotion { x, y } => if !spec_contains(b, x as int, y as int) {
            (FocusState::Idle, false)
        } else if st.button_down {
            (FocusState::Pressed, false)
        } else {
            (FocusState::Hovered, false)
        },
        PointerEvent::LeftDown { x, y } => if spec_contains(b, x as int, y as int) {
            (FocusState::Pressed, false)
        } else {
            (focus, false)
        },
        PointerEvent::LeftUp { x, y } => if spec_contains(b, x as int, y as int) {
            (FocusState::Hovered, true)
        } else {
            (focus, false)
        },
    }
}

/// Advances a button's focus state by one pointer event; the second result
/// says whether the button was released (its action should fire). Total:
/// never blocks, never fails.
pub fn process_button_event(focus: FocusState, b: &Bound, st: &UIState, e: &PointerEvent) -> (r: (
    FocusState,
    bool,
))
    ensures
        r == spec_button_transition(focus, *b, *st, *e),
{
    match e {
        PointerEvent::MouseMotion { x, y } => {
            if !contains_point(b, *x, *y) {
                (FocusState::Idle, false)
            } else if st.button_down {
                (FocusState::Pressed, false)
            } else {
                (FocusState::Hovered, false)
            }
        },
        PointerEvent::LeftDown { x, y } => {
            if contains_point(b, *x, *y) {
                (FocusState::Pressed, false)
            } else {
                (focus, false)
            }
        },
        PointerEvent::LeftUp { x, y } => {
            if contains_point(b, *x, *y) {
                (FocusState::Hovered, true)
            } else {
                (focus, false)
            }
        },
    }
}

} // verus!

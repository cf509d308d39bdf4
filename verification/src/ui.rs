use vstd::prelude::*;
use vstd::string::StrSliceExecFns;
use crate::scene::DepthMode;

verus! {

/// The logical key of a key press.
pub enum KeyInput {
    /// A key that produces text.
    Character(String),
    Escape,
    Space,
    Other,
}

/// A mouse button.
pub enum MouseButton {
    Left,
    Right,
    Other,
}

/// A window event, reduced to what decides the user's intent.  Pointer
/// coordinates and scroll amounts stay with the caller, which attaches them
/// to the `Pan` and `Zoom` actions.
pub enum InputEvent {
    /// The mouse wheel or touchpad scrolled.
    Wheel,
    /// The cursor moved.
    CursorMoved,
    /// A mouse button was pressed or released.
    Button { button: MouseButton, pressed: bool },
    /// A key was pressed or released.
    Key { key: KeyInput, pressed: bool },
    /// Anything else.
    Other,
}

/// What the user asked for.
#[derive(Debug, Clone, Copy, PartialEq, Eq, Structural)]
pub enum UiAction {
    /// Move the view by the cursor's motion.
    Pan,
    /// Zoom by the scroll amount.
    Zoom,
    /// Select the node under the cursor, if any.
    Click,
    /// Zoom in one keyboard step.
    ZoomIn,
    /// Zoom out one keyboard step.
    ZoomOut,
    /// Fit all nodes in view.
    FitAll,
    /// Show or hide the edges.
    ToggleEdges,
    /// Close the window.
    Quit,
    SetDepthMode(DepthMode),
    CycleColorMode,
    ResetCamera,
    Deselect,
    NoAction,
}

/// Pointer state kept between events.
pub struct InputState {
    /// The left button is held down.
    pub dragging: bool,
}

impl InputState {
    pub fn new() -> (s: InputState)
        ensures
            !s.dragging,
    {
        InputState { dragging: false }
    }
}

/// The action bound to a pressed key.
pub open spec fn key_action(key: KeyInput) -> UiAction {
    match key {
        KeyInput::Character(s) => {
            if s@ == seq!['1'] {
                UiAction::SetDepthMode(DepthMode::Recency)
            } else if s@ == seq!['2'] {
                UiAction::SetDepthMode(DepthMode::Coupling)
            } else if s@ == seq!['3'] {
                UiAction::SetDepthMode(DepthMode::Importance)
            } else if s@ == seq!['c'] {
                UiAction::CycleColorMode
            } else if s@ == seq!['f'] {
                UiAction::FitAll
            } else if s@ == seq!['g'] {
                UiAction::ToggleEdges
            } else if s@ == seq!['q'] {
                UiAction::Quit
            } else if s@ == seq!['+'] {
                UiAction::ZoomIn
            } else if s@ == seq!['-'] {
                UiAction::ZoomOut
            } else {
                UiAction::NoAction
            }
        },
        KeyInput::Escape => UiAction::Deselect,
        KeyInput::Space => UiAction::ResetCamera,
        KeyInput::Other => UiAction::NoAction,
    }
}

/// The action an event asks for, and whether the left button is held down
/// afterwards, given whether it was held down before.
pub open spec fn event_outcome(event: InputEvent, dragging: bool) -> (UiAction, bool) {
    match event {
        InputEvent::Wheel => (UiAction::Zoom, dragging),
        InputEvent::CursorMoved => (if dragging { UiAction::Pan } else { UiAction::NoAction }, dragging),
        InputEvent::Button { button: MouseButton::Left, pressed } => (
            if pressed { UiAction::Click } else { UiAction::NoAction },
            pressed,
        ),
        InputEvent::Button { button: MouseButton::Right, pressed } => (
            if pressed { UiAction::Deselect } else { UiAction::NoAction },
            dragging,
        ),
        InputEvent::Key { key, pressed } => (if pressed { key_action(key) } else { UiAction::NoAction }, dragging),
        _ => (UiAction::NoAction, dragging),
    }
}

/// A key press asks for something exactly when the key is Escape, Space or
/// one of the bound characters 1, 2, 3, c, f, g, q, + and -; every other key
/// (Tab, Shift, arrows, unbound letters) does nothing.  Escape deselects,
/// Space resets the camera, and no key release does anything.  Keys never
/// change whether the left button is held.
pub proof fn lemma_only_bound_keys_act(key: KeyInput, dragging: bool)
    ensures
        event_outcome(InputEvent::Key { key: key, pressed: true }, dragging).0 != UiAction::NoAction <==> (
        key is Escape || key is Space || (key matches KeyInput::Character(s) && (s@ == seq!['1'] || s@ == seq!['2']
            || s@ == seq!['3'] || s@ == seq!['c'] || s@ == seq!['f'] || s@ == seq!['g'] || s@ == seq!['q']
            || s@ == seq!['+'] || s@ == seq!['-']))),
        key is Escape ==> event_outcome(InputEvent::Key { key: key, pressed: true }, dragging).0 == UiAction::Deselect,
        key is Space ==> event_outcome(InputEvent::Key { key: key, pressed: true }, dragging).0
            == UiAction::ResetCamera,
        event_outcome(InputEvent::Key { key: key, pressed: false }, dragging).0 == UiAction::NoAction,
        event_outcome(InputEvent::Key { key: key, pressed: true }, dragging).1 == dragging,
        event_outcome(InputEvent::Key { key: key, pressed: false }, dragging).1 == dragging,
{
}

/// The bound characters and what each asks for: 1, 2 and 3 choose the
/// recency, coupling and importance depth modes, c cycles the color mode,
/// f fits all nodes, g toggles edges, q quits, + zooms in and - zooms out.
pub proof fn lemma_key_bindings(s: String, dragging: bool)
    ensures
        ({
            let a = event_outcome(InputEvent::Key { key: KeyInput::Character(s), pressed: true }, dragging).0;
            &&& s@ == seq!['1'] ==> a == UiAction::SetDepthMode(DepthMode::Recency)
            &&& s@ == seq!['2'] ==> a == UiAction::SetDepthMode(DepthMode::Coupling)
            &&& s@ == seq!['3'] ==> a == UiAction::SetDepthMode(DepthMode::Importance)
            &&& s@ == seq!['c'] ==> a == UiAction::CycleColorMode
            &&& s@ == seq!['f'] ==> a == UiAction::FitAll
            &&& s@ == seq!['g'] ==> a == UiAction::ToggleEdges
            &&& s@ == seq!['q'] ==> a == UiAction::Quit
            &&& s@ == seq!['+'] ==> a == UiAction::ZoomIn
            &&& s@ == seq!['-'] ==> a == UiAction::ZoomOut
        }),
{
    assert(seq!['1'][0] == '1' && seq!['2'][0] == '2' && seq!['3'][0] == '3' && seq!['c'][0] == 'c');
    assert(seq!['f'][0] == 'f' && seq!['g'][0] == 'g' && seq!['q'][0] == 'q' && seq!['+'][0] == '+');
    assert(seq!['-'][0] == '-');
}

/// The pointer: scrolling zooms; moving the cursor pans exactly while the
/// left button is held; pressing the left button clicks and starts a drag,
/// releasing it ends the drag and does nothing else; pressing the right
/// button deselects; only the left button changes the drag state.
pub proof fn lemma_pointer_actions(button: MouseButton, pressed: bool, dragging: bool)
    ensures
        event_outcome(InputEvent::Wheel, dragging) == (UiAction::Zoom, dragging),
        event_outcome(InputEvent::CursorMoved, dragging).0 == (if dragging { UiAction::Pan } else { UiAction::NoAction }),
        event_outcome(InputEvent::CursorMoved, dragging).1 == dragging,
        button is Left ==> event_outcome(InputEvent::Button { button: button, pressed: pressed }, dragging) == (
        if pressed { UiAction::Click } else { UiAction::NoAction }, pressed),
        button is Right ==> event_outcome(InputEvent::Button { button: button, pressed: pressed }, dragging) == (
        if pressed { UiAction::Deselect } else { UiAction::NoAction }, dragging),
        button is Other ==> event_outcome(InputEvent::Button { button: button, pressed: pressed }, dragging) == (
        UiAction::NoAction, dragging),
        event_outcome(InputEvent::Other, dragging) == (UiAction::NoAction, dragging),
{
}

fn single_char(s: &String) -> (r: Option<char>)
    ensures
        r == (if s@.len() == 1 { Some(s@[0]) } else { None::<char> }),
{
    if s.as_str().unicode_len() == 1 {
        Some(s.as_str().get_char(0))
    } else {
        None
    }
}

fn action_for_key(key: &KeyInput) -> (a: UiAction)
    ensures
        a == key_action(*key),
{
    match key {
        KeyInput::Character(s) => {
            let c = single_char(s);
            proof {
                assert(seq!['1'][0] == '1' && seq!['1'].len() == 1);
                assert(seq!['2'][0] == '2' && seq!['2'].len() == 1);
                assert(seq!['3'][0] == '3' && seq!['3'].len() == 1);
                assert(seq!['c'][0] == 'c' && seq!['c'].len() == 1);
                assert(seq!['f'][0] == 'f' && seq!['f'].len() == 1);
                assert(seq!['g'][0] == 'g' && seq!['g'].len() == 1);
                assert(seq!['q'][0] == 'q' && seq!['q'].len() == 1);
                assert(seq!['+'][0] == '+' && seq!['+'].len() == 1);
                assert(seq!['-'][0] == '-' && seq!['-'].len() == 1);
                if s@.len() == 1 {
                    assert(s@ =~= seq![s@[0]]);
                }
            }
            match c {
                Some('1') => UiAction::SetDepthMode(DepthMode::Recency),
                Some('2') => UiAction::SetDepthMode(DepthMode::Coupling),
                Some('3') => UiAction::SetDepthMode(DepthMode::Importance),
                Some('c') => UiAction::CycleColorMode,
                Some('f') => UiAction::FitAll,
                Some('g') => UiAction::ToggleEdges,
                Some('q') => UiAction::Quit,
                Some('+') => UiAction::ZoomIn,
                Some('-') => UiAction::ZoomOut,
                _ => UiAction::NoAction,
            }
        },
        KeyInput::Escape => UiAction::Deselect,
        KeyInput::Space => UiAction::ResetCamera,
        KeyInput::Other => UiAction::NoAction,
    }
}

/// Decide what a window event asks for, keeping track of whether the left
/// button is held down: scrolling zooms, moving the cursor pans while the
/// left button is held, pressing the left button clicks (selects) and starts
/// a drag that its release ends, a right click deselects, and the keys
/// 1/2/3 choose the depth mode, c cycles the color mode, f fits all nodes in
/// view, g toggles the edges, q quits, + and - zoom, Escape deselects and
/// Space resets the camera.
pub fn handle_event(event: &InputEvent, state: &mut InputState) -> (a: UiAction)
    ensures
        (a, final(state).dragging) == event_outcome(*event, old(state).dragging),
{
    match event {
        InputEvent::Wheel => UiAction::Zoom,
        InputEvent::CursorMoved => {
            if state.dragging {
                UiAction::Pan
            } else {
                UiAction::NoAction
            }
        },
        InputEvent::Button { button, pressed } => {
            match button {
                MouseButton::Left => {
                    state.dragging = *pressed;
                    if *pressed {
                        UiAction::Click
                    } else {
                        UiAction::NoAction
                    }
                },
                MouseButton::Right => {
                    if *pressed {
                        UiAction::Deselect
                    } else {
                        UiAction::NoAction
                    }
                },
                MouseButton::Other => UiAction::NoAction,
            }
        },
        InputEvent::Key { key, pressed } => {
            if *pressed {
                action_for_key(key)
            } else {
                UiAction::NoAction
            }
        },
        InputEvent::Other => UiAction::NoAction,
    }
}

} // verus!

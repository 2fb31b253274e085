//! Routing of raw terminal input events.

use vstd::prelude::*;

verus! {

/// A terminal input event, as far as routing it depends on it.
#[derive(Clone, Copy, Debug, PartialEq, Eq, Structural)]
pub enum InputEvent {
    /// A key press: the character typed (`None` for a key that is not a
    /// character) and whether Control was held.
    Key { ch: Option<char>, ctrl: bool },
    /// The terminal was resized to `cols` by `rows` cells.
    Resize { cols: u16, rows: u16 },
    /// A mouse event.
    Mouse,
    /// Anything else (focus changes, pastes).
    Other,
}

/// Where an input event goes.
#[derive(Clone, Copy, Debug, PartialEq, Eq, Structural)]
pub enum InputRoute {
    /// Ctrl-C: quit the application.
    Quit,
    /// Any other key: to the focused layer of the focus stack.
    FocusedKey,
    /// A resize: handled as a resize command of the new size.
    Resize { cols: u16, rows: u16 },
    /// A mouse event: translated into commands by the mouse adapter.
    Mouse,
    /// Dropped.
    Ignore,
}

/// The route of `event`.
pub open spec fn input_route(event: InputEvent) -> InputRoute {
    match event {
        InputEvent::Key { ch, ctrl } => if ctrl && ch == Some('c') {
            InputRoute::Quit
        } else {
            InputRoute::FocusedKey
        },
        InputEvent::Resize { cols, rows } => InputRoute::Resize { cols, rows },
        InputEvent::Mouse => InputRoute::Mouse,
        InputEvent::Other => InputRoute::Ignore,
    }
}

/// Decides where an input event goes: Ctrl-C quits, other keys go to
/// the focused layer, resizes become resize commands, mouse events go to
/// the mouse adapter, and the rest is dropped.
pub fn route_input(event: InputEvent) -> (route: InputRoute)
    ensures
        route == input_route(event),
{
    match event {
        InputEvent::Key { ch, ctrl } => {
            if ctrl && ch == Some('c') {
                InputRoute::Quit
            } else {
                InputRoute::FocusedKey
            }
        },
        InputEvent::Resize { cols, rows } => InputRoute::Resize { cols, rows },
        InputEvent::Mouse => InputRoute::Mouse,
        InputEvent::Other => InputRoute::Ignore,
    }
}

/// Ctrl-C is the only key that quits: an event is routed to quitting
/// exactly when it is the `c` key pressed with Control; every other key,
/// with or without Control, goes to the focused layer; a resize keeps its
/// size, mouse events go to the mouse adapter and the rest is dropped.
pub proof fn lemma_only_ctrl_c_quits(event: InputEvent)
    ensures
        (input_route(event) == InputRoute::Quit) == (event == (InputEvent::Key {
            ch: Some('c'),
            ctrl: true,
        })),
        event is Key && event != (InputEvent::Key { ch: Some('c'), ctrl: true }) ==> input_route(
            event,
        ) == InputRoute::FocusedKey,
        event matches InputEvent::Resize { cols, rows } ==> input_route(event) == (
        InputRoute::Resize { cols, rows }),
        event == InputEvent::Mouse ==> input_route(event) == InputRoute::Mouse,
        event == InputEvent::Other ==> input_route(event) == InputRoute::Ignore,
{
}

} // verus!

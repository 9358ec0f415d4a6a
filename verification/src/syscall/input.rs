//! Input system calls.

use vstd::prelude::*;

verus! {

/// An input device
#[derive(Clone, Copy, Debug, PartialEq, Eq, Structural)]
pub enum EventSource {
    Keyboard,
    Mouse,
}

/// Which device the next input event is read from: the keyboard when it has
/// one, else the mouse when it has one; `None` when neither has, and the
/// result of the call is then 0, else the event read
pub fn sys_event_get(keyboard_empty: bool, mouse_empty: bool) -> (s: Option<EventSource>)
    ensures
        s == (if !keyboard_empty {
            Some(EventSource::Keyboard)
        } else if !mouse_empty {
            Some(EventSource::Mouse)
        } else {
            None::<EventSource>
        }),
{
    if !keyboard_empty {
        Some(EventSource::Keyboard)
    } else if !mouse_empty {
        Some(EventSource::Mouse)
    } else {
        None
    }
}

/// Whether a key was pressed: 1 when the console's read buffer holds a
/// byte, else 0
pub fn sys_key_pressed(read_buffer_empty: bool) -> (r: isize)
    ensures
        r == (if read_buffer_empty { 0isize } else { 1isize }),
{
    if read_buffer_empty {
        0
    } else {
        1
    }
}

} // verus!

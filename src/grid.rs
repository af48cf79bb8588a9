use vstd::prelude::*;

verus! {

/// Height in pixels of the cursor gutter above the first line of the grid.
pub const CURSOR_GUTTER_HEIGHT: usize = 16;

/// Height in pixels of one grid line, without its border.
pub const LINE_HEIGHT: usize = 12;

/// Width in pixels of the border between two grid lines.
pub const LINE_BORDER_WIDTH: usize = 1;

/// Height in pixels of one grid line with its border.
pub const PADDED_LINE_HEIGHT: usize = LINE_HEIGHT + LINE_BORDER_WIDTH;

/// The grid line under pixel row `y`, or `None` within the cursor gutter.
pub fn get_line_index(y: usize) -> (r: Option<usize>)
    ensures
        y <= CURSOR_GUTTER_HEIGHT ==> r is None,
        y > CURSOR_GUTTER_HEIGHT ==> r == Some(((y - CURSOR_GUTTER_HEIGHT) as usize / PADDED_LINE_HEIGHT) as usize),
{
    if y > CURSOR_GUTTER_HEIGHT {
        Some((y - CURSOR_GUTTER_HEIGHT) / PADDED_LINE_HEIGHT)
    } else {
        None
    }
}

/// A view of the application: the hooks through which the host sets it up, tears it down,
/// saves it, and hands it input. Every hook but `save` does nothing unless overridden.
pub trait ViewContext {
    /// Sets the view up as the active one.
    fn init(&mut self) {
    }

    /// Removes what the view put on screen; the view may be set up again later.
    fn cleanup(&mut self) {
    }

    /// Releases everything the view holds before it is dropped for good.
    fn dispose(&mut self) {
    }

    /// The view's settings and interface state, in a form it can be rebuilt from.
    fn save(&mut self) -> String;

    fn handle_key_down(&mut self, _key: &str, _control_pressed: bool, _shift_pressed: bool) {
    }

    fn handle_key_up(&mut self, _key: &str, _control_pressed: bool, _shift_pressed: bool) {
    }

    fn handle_mouse_down(&mut self, _x: usize, _y: usize) {
    }

    fn handle_mouse_move(&mut self, _x: usize, _y: usize) {
    }

    fn handle_mouse_up(&mut self, _x: usize, _y: usize) {
    }

    fn handle_mouse_wheel(&mut self, _ydiff: isize) {
    }

    /// Answers a message from the host; by default there is no answer.
    fn handle_message(&mut self, _key: &str, _val: &str) -> Option<Vec<u8>> {
        None
    }
}

} // verus!

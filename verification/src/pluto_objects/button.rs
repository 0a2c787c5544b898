//! Pointer handling of a button: focus follows the pointer and a left click on the button
//! clicks it.
use vstd::prelude::*;

verus! {

/// Callbacks a button fires in a frame, in the order `focus`/`unfocus` then `click`.
#[derive(Debug, Clone, Copy, PartialEq, Eq, Structural)]
pub struct ButtonEvents {
    /// The pointer entered the button.
    pub focused: bool,
    /// The pointer left the button.
    pub unfocused: bool,
    /// The button was clicked.
    pub clicked: bool,
}

/// Focus state of a button.
#[derive(Debug, Clone, Copy, PartialEq, Eq, Structural)]
pub struct ButtonState {
    pub is_focused: bool,
}

impl ButtonState {
    /// A button without focus.
    pub fn new() -> (r: Self)
        ensures
            !r.is_focused,
    {
        ButtonState { is_focused: false }
    }

    /// Handles the pointer for a frame: `pointer` is `None` without a mouse, else whether the
    /// pointer is on the button and whether the left button is down. Focus becomes whether
    /// the pointer is on the button; returns the callbacks to fire.
    pub fn update(&mut self, pointer: Option<(bool, bool)>) -> (r: ButtonEvents)
        ensures
            match pointer {
                None => *final(self) == *old(self) && r == (ButtonEvents {
                    focused: false,
                    unfocused: false,
                    clicked: false,
                }),
                Some((on_button, lmb)) => {
                    &&& final(self).is_focused == on_button
                    &&& r.focused == (!old(self).is_focused && on_button)
                    &&& r.unfocused == (old(self).is_focused && !on_button)
                    &&& r.clicked == (lmb && on_button)
                },
            },
    {
        match pointer {
            None => ButtonEvents { focused: false, unfocused: false, clicked: false },
            Some((on_button, lmb)) => {
                let focused = !self.is_focused && on_button;
                let unfocused = self.is_focused && !on_button;
                self.is_focused = on_button;
                ButtonEvents { focused, unfocused, clicked: lmb && on_button }
            },
        }
    }
}

} // verus!

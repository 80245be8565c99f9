//! The interface of a widget that the dashboard hosts.

use vstd::prelude::*;

verus! {

/// A widget: something that renders itself into a pane of a given size and
/// is told when to fetch new data, when its pane changes and what keys the
/// user pressed while it had the focus.
pub trait Plugin {
    /// The widget's text for a pane `height` rows high and `width`
    /// characters wide.
    fn display(&mut self, height: i32, width: i32) -> String;

    /// Called each time the data is due to be refreshed.
    fn update(&mut self);

    /// The time between two refreshes of the data, in milliseconds: a
    /// third of a second for a widget that does not say otherwise.
    fn refresh_rate(&self) -> (rate: i32)
        default_ensures
            rate == 333,
    {
        333
    }

    /// Called when the pane gets a new size.
    fn resize(&mut self, _h: i32, _w: i32) {
    }

    /// Called with the name of a key pressed while the widget has the
    /// focus.
    fn on_input(&mut self, _key: String) {
    }
}

} // verus!

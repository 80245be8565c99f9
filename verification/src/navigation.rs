//! What the keys do that the dashboard itself handles: turning pages,
//! moving the focus between the widgets of a page, leaving.

use vstd::prelude::*;

verus! {

/// A key as the dashboard tells them apart.
#[derive(Clone, Copy, Debug, PartialEq, Eq, Structural)]
pub enum Key {
    /// To the next page.
    Right,
    /// To the page before.
    Left,
    /// The terminal has a new size.
    Resize,
    /// To the next widget that takes the focus.
    Tab,
    /// To the widget before that takes the focus.
    BackTab,
    /// Leave the program.
    Quit,
    /// A key for the widget that has the focus.
    Other,
}

/// What the caller has to do after a key.
#[derive(Clone, Copy, Debug, PartialEq, Eq, Structural)]
pub enum Step {
    /// Lay out the panes of the page that is now shown.
    TurnPage,
    /// Draw the screen anew for its new size.
    Redraw,
    /// The focus moved; nothing else to do.
    Refocus,
    /// Hand the key to the widget that has the focus.
    Forward,
    /// The key is for a widget and none has the focus: drop it.
    Ignore,
    /// Leave the program.
    Quit,
}

/// The page shown, counted from 1, and the widget that has the focus,
/// counted from 1 among those of the page that take it; 0 where none does.
#[derive(Clone, Copy, Debug, PartialEq, Eq, Structural)]
pub struct Focus {
    pub page: usize,
    pub widget: usize,
}

/// The kind of key that a key code stands for. The codes of the cursor and
/// resize keys are the terminal library's; 9 is the tabulator, 353 and `Z`
/// go backwards, `q` quits.
pub open spec fn key_kind(code: int, right: int, left: int, resize: int) -> Key {
    if code == right {
        Key::Right
    } else if code == left {
        Key::Left
    } else if code == resize {
        Key::Resize
    } else if code == 9 {
        Key::Tab
    } else if code == 353 || code == 90 {
        Key::BackTab
    } else if code == 113 {
        Key::Quit
    } else {
        Key::Other
    }
}

/// The focus as it stands once the page is known to have `focusable`
/// widgets that take it: on none if there is none.
pub open spec fn settled_focus(focus: Focus, focusable: int) -> Focus {
    if focusable == 0 {
        Focus { page: focus.page, widget: 0 }
    } else {
        focus
    }
}

/// The focus after a key, on a dashboard of `pages` pages whose current
/// page has `focusable` widgets that take the focus. Turning a page stops
/// at the first and the last page and puts the focus on the first widget;
/// the tabulator stops at the last widget, its reverse at the first.
pub open spec fn focus_after(focus: Focus, key: Key, pages: int, focusable: int) -> Focus {
    let now = settled_focus(focus, focusable);
    match key {
        Key::Right => Focus {
            page: if now.page + 1 > pages {
                pages as usize
            } else {
                (now.page + 1) as usize
            },
            widget: 1,
        },
        Key::Left => Focus {
            page: if now.page <= 1 {
                1
            } else {
                (now.page - 1) as usize
            },
            widget: 1,
        },
        Key::Tab => Focus {
            page: now.page,
            widget: if now.widget + 1 > focusable {
                focusable as usize
            } else {
                (now.widget + 1) as usize
            },
        },
        Key::BackTab => Focus {
            page: now.page,
            widget: if now.widget <= 1 {
                1
            } else {
                (now.widget - 1) as usize
            },
        },
        _ => now,
    }
}

/// What the caller has to do after a key.
pub open spec fn step_after(focus: Focus, key: Key, focusable: int) -> Step {
    match key {
        Key::Right => Step::TurnPage,
        Key::Left => Step::TurnPage,
        Key::Resize => Step::Redraw,
        Key::Tab => Step::Refocus,
        Key::BackTab => Step::Refocus,
        Key::Quit => Step::Quit,
        Key::Other => if settled_focus(focus, focusable).widget != 0 {
            Step::Forward
        } else {
            Step::Ignore
        },
    }
}

/// Tells the kind of a key from its code.
pub fn key_of(code: i32, right: i32, left: i32, resize: i32) -> (key: Key)
    ensures
        key == key_kind(code as int, right as int, left as int, resize as int),
{
    if code == right {
        Key::Right
    } else if code == left {
        Key::Left
    } else if code == resize {
        Key::Resize
    } else if code == 9 {
        Key::Tab
    } else if code == 353 || code == 90 {
        Key::BackTab
    } else if code == 113 {
        Key::Quit
    } else {
        Key::Other
    }
}

/// Handles a key: the new focus and what is left for the caller to do.
pub fn navigate(focus: Focus, key: Key, pages: usize, focusable: usize) -> (next: (Focus, Step))
    ensures
        next.0 == focus_after(focus, key, pages as int, focusable as int),
        next.1 == step_after(focus, key, focusable as int),
{
    let now = if focusable == 0 {
        Focus { page: focus.page, widget: 0 }
    } else {
        focus
    };
    match key {
        Key::Right => {
            let page: usize = if now.page >= pages {
                pages
            } else {
                now.page + 1
            };
            (Focus { page, widget: 1 }, Step::TurnPage)
        },
        Key::Left => {
            let page: usize = if now.page <= 1 {
                1
            } else {
                now.page - 1
            };
            (Focus { page, widget: 1 }, Step::TurnPage)
        },
        Key::Resize => (now, Step::Redraw),
        Key::Tab => {
            let widget: usize = if now.widget >= focusable {
                focusable
            } else {
                now.widget + 1
            };
            (Focus { page: now.page, widget }, Step::Refocus)
        },
        Key::BackTab => {
            let widget: usize = if now.widget <= 1 {
                1
            } else {
                now.widget - 1
            };
            (Focus { page: now.page, widget }, Step::Refocus)
        },
        Key::Quit => (now, Step::Quit),
        Key::Other => if now.widget != 0 {
            (now, Step::Forward)
        } else {
            (now, Step::Ignore)
        },
    }
}

/// On a dashboard with at least one page, a focus on one of its pages stays
/// on one of them whatever the key, and a key is handed on only while a
/// widget has the focus.
pub proof fn lemma_focus_stays_on_a_page(focus: Focus, key: Key, pages: int, focusable: int)
    requires
        1 <= focus.page <= pages,
        pages <= usize::MAX,
        0 <= focusable <= usize::MAX,
    ensures
        1 <= focus_after(focus, key, pages, focusable).page <= pages,
        step_after(focus, key, focusable) == Step::Forward ==> 1 <= focus_after(
            focus,
            key,
            pages,
            focusable,
        ).widget && focusable >= 1,
{
}

} // verus!

//! Where the panes of a page go: up to four widgets share the screen below
//! the title bar.

use vstd::prelude::*;

verus! {

/// A rectangle on the screen, in character cells: its size and the
/// position of its top left corner.
#[derive(Clone, Copy, Debug, PartialEq, Eq, Structural)]
pub struct Pane {
    pub height: i32,
    pub width: i32,
    pub x: i32,
    pub y: i32,
}

/// Half of `v`, rounded towards zero.
pub open spec fn half(v: int) -> int {
    if v >= 0 {
        v / 2
    } else {
        -((-v) / 2)
    }
}

/// Half of `v`, rounded upwards.
pub open spec fn upper_half(v: int) -> int {
    if v >= 0 {
        v - v / 2
    } else {
        -((-v) / 2)
    }
}

/// The height of the upper row of panes: the whole height for a single
/// widget, else half of it.
pub open spec fn upper_height(height: int, widgets: int) -> int {
    if widgets >= 2 {
        half(height)
    } else {
        height
    }
}

/// The width of the left column of panes: half the width for four
/// widgets, else all of it.
pub open spec fn left_width(width: int, widgets: int) -> int {
    if widgets == 4 {
        half(width)
    } else {
        width
    }
}

/// The four panes of a page of `widgets` widgets on a screen area of the
/// given size that starts in row 1. A page uses the first `widgets` of
/// them: one widget has the whole area; two lie one above the other; of
/// three, one lies above the two others, which share the lower half left
/// and right; four take a quarter each, the second one top right.
pub open spec fn panes_of(height: int, width: int, widgets: int) -> Seq<Pane> {
    let upper = upper_height(height, widgets);
    let left = left_width(width, widgets);
    let lower = height - upper;
    let first = Pane { height: upper as i32, width: left as i32, x: 0, y: 1 };
    let second = if widgets == 3 {
        Pane { height: lower as i32, width: upper_half(width) as i32, x: 0, y: (1 + upper) as i32 }
    } else if widgets == 4 {
        Pane { height: upper as i32, width: (width - left) as i32, x: left as i32, y: 1 }
    } else {
        Pane { height: lower as i32, width: left as i32, x: 0, y: (1 + upper) as i32 }
    };
    let third = if widgets == 4 {
        Pane { height: lower as i32, width: left as i32, x: 0, y: (1 + upper) as i32 }
    } else {
        Pane {
            height: lower as i32,
            width: (width - upper_half(width)) as i32,
            x: (width - half(width)) as i32,
            y: (1 + upper) as i32,
        }
    };
    let fourth = Pane {
        height: lower as i32,
        width: (width - left) as i32,
        x: left as i32,
        y: (1 + upper) as i32,
    };
    seq![first, second, third, fourth]
}

/// Half of `v`, rounded towards zero.
fn half_of(v: i32) -> (h: i32)
    ensures
        h == half(v as int),
{
    if v >= 0 {
        v / 2
    } else if v == i32::MIN {
        -0x4000_0000
    } else {
        -((-v) / 2)
    }
}

/// The panes of a page of `widget_count` widgets on a screen area `height`
/// rows high and `width` characters wide.
pub fn pane_layout(height: i32, width: i32, widget_count: i32) -> (panes: Vec<Pane>)
    requires
        widget_count >= 2 || height < i32::MAX,
    ensures
        panes@ == panes_of(height as int, width as int, widget_count as int),
{
    let upper: i32 = if widget_count >= 2 {
        half_of(height)
    } else {
        height
    };
    let left: i32 = if widget_count == 4 {
        half_of(width)
    } else {
        width
    };
    let lower: i32 = height - upper;
    let wide_half: i32 = if width >= 0 {
        width - half_of(width)
    } else {
        half_of(width)
    };
    let first = Pane { height: upper, width: left, x: 0, y: 1 };
    let second = if widget_count == 3 {
        Pane { height: lower, width: wide_half, x: 0, y: 1 + upper }
    } else if widget_count == 4 {
        Pane { height: upper, width: width - left, x: left, y: 1 }
    } else {
        Pane { height: lower, width: left, x: 0, y: 1 + upper }
    };
    let third = if widget_count == 4 {
        Pane { height: lower, width: left, x: 0, y: 1 + upper }
    } else {
        Pane { height: lower, width: width - wide_half, x: width - half_of(width), y: 1 + upper }
    };
    let fourth = Pane { height: lower, width: width - left, x: left, y: 1 + upper };
    let mut panes: Vec<Pane> = Vec::new();
    panes.push(first);
    panes.push(second);
    panes.push(third);
    panes.push(fourth);
    assert(panes@ =~= panes_of(height as int, width as int, widget_count as int));
    panes
}

/// With two widgets or more, the upper and the lower row of panes fill the
/// height between them; with four, so do the left and the right column the
/// width; and the two lower panes of three lie side by side across it.
pub proof fn lemma_panes_tile(height: int, width: int, widgets: int)
    requires
        0 <= height < i32::MAX,
        0 <= width <= i32::MAX,
    ensures
        ({
            let panes = panes_of(height, width, widgets);
            &&& panes.len() == 4
            &&& panes[0].x == 0 && panes[0].y == 1
            &&& widgets == 2 ==> panes[1].y == panes[0].y + panes[0].height && panes[0].height
                + panes[1].height == height && panes[1].width == width
            &&& widgets == 3 ==> panes[1].y == panes[0].y + panes[0].height && panes[2].y
                == panes[1].y && panes[0].height + panes[1].height == height && panes[1].width
                + panes[2].width == width && panes[2].height == panes[1].height
            &&& widgets == 4 ==> panes[0].width + panes[1].width == width && panes[2].width
                + panes[3].width == width && panes[0].height + panes[2].height == height
                && panes[1].height + panes[3].height == height && panes[1].x == panes[0].width
                && panes[3].x == panes[2].width && panes[2].y == panes[0].y + panes[0].height
                && panes[3].y == panes[2].y
        }),
{
}

} // verus!

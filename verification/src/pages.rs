//! The rules for the pages of the dashboard: how many widgets a page may
//! hold, how a widget of a plugin is named, and what is shown in place of a
//! widget that could not be made.

use crate::text::{push_chars, push_spaces, spaces};
use vstd::prelude::*;
use vstd::string::StringExecFns;

verus! {

/// What is wrong with a page.
#[derive(Clone, Copy, Debug, PartialEq, Eq, Structural)]
pub enum PageProblem {
    /// The page lists more than four widgets.
    TooManyWidgets,
    /// The page lists no widget.
    NoWidget,
}

/// The most widgets that a page can show.
pub const MAX_WIDGETS: usize = 4;

/// What is wrong with a page of `widgets` widgets, if anything.
pub open spec fn problem_of(widgets: int) -> Option<PageProblem> {
    if widgets > 4 {
        Some(PageProblem::TooManyWidgets)
    } else if widgets == 0 {
        Some(PageProblem::NoWidget)
    } else {
        None
    }
}

/// Checks the number of widgets of a page.
pub fn check_page(widgets: usize) -> (problem: Option<PageProblem>)
    ensures
        problem == problem_of(widgets as int),
{
    if widgets > MAX_WIDGETS {
        Some(PageProblem::TooManyWidgets)
    } else if widgets == 0 {
        Some(PageProblem::NoWidget)
    } else {
        None
    }
}

/// The message for a problem.
pub open spec fn problem_text(problem: PageProblem) -> Seq<char> {
    match problem {
        PageProblem::TooManyWidgets => "You cannot have more than 4 widgets per pages"@,
        PageProblem::NoWidget => "You must add a widget to this page"@,
    }
}

/// The message for a problem.
pub fn problem_message(problem: PageProblem) -> (message: String)
    ensures
        message@ == problem_text(problem),
{
    match problem {
        PageProblem::TooManyWidgets => "You cannot have more than 4 widgets per pages".to_owned(),
        PageProblem::NoWidget => "You must add a widget to this page".to_owned(),
    }
}

/// The part of a text before its first `.`; all of it if it has none.
pub open spec fn until_dot(name: Seq<char>) -> Seq<char>
    decreases name.len(),
{
    if name.len() == 0 || name[0] == '.' {
        Seq::empty()
    } else {
        seq![name[0]] + until_dot(name.drop_first())
    }
}

/// The name of the plugin in a widget name of the form `plugin.widget`.
pub open spec fn plugin_part(name: Seq<char>) -> Seq<char> {
    until_dot(name)
}

/// The name of the widget in a widget name of the form `plugin.widget`:
/// what stands between the first `.` and the next one or the end. `None`
/// for a name without a `.`.
pub open spec fn widget_part(name: Seq<char>) -> Option<Seq<char>> {
    let plugin = until_dot(name);
    if plugin.len() < name.len() {
        Some(until_dot(name.skip(plugin.len() as int + 1)))
    } else {
        None
    }
}

/// The part of a text before its first `.` is a prefix of it, and no longer
/// than it.
proof fn lemma_until_dot(name: Seq<char>, i: int)
    requires
        0 <= i <= name.len(),
        forall|j: int| 0 <= j < i ==> name[j] != '.',
    ensures
        until_dot(name) == name.take(i) + until_dot(name.skip(i)),
    decreases i,
{
    if i == 0 {
        assert(name.skip(0) =~= name);
        assert(name.take(0) + until_dot(name) =~= until_dot(name));
    } else {
        lemma_until_dot(name.drop_first(), i - 1);
        assert(name.drop_first().skip(i - 1) =~= name.skip(i));
        assert(seq![name[0]] + name.drop_first().take(i - 1) =~= name.take(i));
        assert(seq![name[0]] + (name.drop_first().take(i - 1) + until_dot(name.skip(i)))
            =~= name.take(i) + until_dot(name.skip(i)));
    }
}

/// Reads the characters from `start` up to the next `.` or the end.
fn read_until_dot(name: &Vec<char>, start: usize) -> (part: Vec<char>)
    requires
        start <= name.len(),
    ensures
        part@ == until_dot(name@.skip(start as int)),
        start + part.len() <= name.len(),
{
    let mut part: Vec<char> = Vec::new();
    let mut i: usize = start;
    let ghost rest = name@.skip(start as int);
    while i < name.len() && name[i] != '.'
        invariant
            start <= i <= name.len(),
            rest == name@.skip(start as int),
            part@ == rest.take(i - start),
            forall|j: int| 0 <= j < i - start ==> rest[j] != '.',
        decreases name.len() - i,
    {
        part.push(name[i]);
        i += 1;
        assert(part@ =~= rest.take(i - start));
    }
    proof {
        lemma_until_dot(rest, i - start);
        assert(until_dot(rest.skip(i - start)) =~= Seq::<char>::empty());
        assert(part@ =~= until_dot(rest));
    }
    part
}

/// Splits the name of a plugin's widget into the plugin's name and the
/// widget's.
pub fn split_widget_name(name: &Vec<char>) -> (parts: (Vec<char>, Option<Vec<char>>))
    ensures
        parts.0@ == plugin_part(name@),
        match parts.1 {
            Some(widget) => widget_part(name@) == Some(widget@),
            None => widget_part(name@) is None,
        },
{
    assert(name@.skip(0) =~= name@);
    let plugin = read_until_dot(name, 0);
    if plugin.len() < name.len() {
        let widget = read_until_dot(name, plugin.len() + 1);
        (plugin, Some(widget))
    } else {
        (plugin, None)
    }
}

/// Half of a size, none of a negative one.
pub open spec fn half_size(v: int) -> int {
    if v > 0 {
        v / 2
    } else {
        0
    }
}

/// What stands in a pane in place of a widget that could not be made: the
/// message, behind `An error occured: `, in the middle row of the pane,
/// centred as far as the width allows.
pub open spec fn error_text(message: Seq<char>, h: int, w: int) -> Seq<char> {
    let line = "An error occured: "@ + message;
    Seq::new(half_size(h) as nat, |i: int| '\n') + spaces(half_size(w) - line.len() / 2) + line
}

/// The text shown in a pane `h` rows high and `w` characters wide in place
/// of a widget that could not be made.
pub fn error_display(message: &str, h: i32, w: i32) -> (text: String)
    ensures
        text@ == error_text(message@, h as int, w as int),
{
    let mut line = "An error occured: ".to_owned();
    line.append(message);
    let width: usize = line.as_str().unicode_len();
    let rows: usize = if h > 0 {
        (h / 2) as usize
    } else {
        0
    };
    let middle: usize = if w > 0 {
        (w / 2) as usize
    } else {
        0
    };
    let mut text = String::new();
    let mut i: usize = 0;
    while i < rows
        invariant
            i <= rows,
            text@ == Seq::new(i as nat, |k: int| '\n'),
        decreases rows - i,
    {
        text.push('\n');
        i += 1;
        assert(text@ =~= Seq::new(i as nat, |k: int| '\n'));
    }
    let pad: usize = if middle > width / 2 {
        middle - width / 2
    } else {
        0
    };
    assert(spaces(pad as int) =~= spaces(half_size(w as int) - line@.len() / 2));
    push_spaces(&mut text, pad);
    text.append(line.as_str());
    text
}

} // verus!

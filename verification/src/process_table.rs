//! The process list widget without its data source: a list view with the
//! columns of the process table, the keys that drive it and the two-step
//! confirmation before processes are killed.

use crate::listview::{
    after_first, after_last, after_next, after_previous, after_resize, clamped_cursor, list_text,
    settled, settled_scroll, ListItem, ListModel, ListView,
};
use crate::sorting::{in_order, keeps_ties, views};
use crate::text::{decimal_digits, numeral_of, push_chars, same_text};
use vstd::prelude::*;
use vstd::string::StringExecFns;

verus! {

/// The process list: its view, and whether a first `d` has armed the kill
/// that a second `d` carries out.
pub struct ProcessTable {
    list: ListView,
    armed: bool,
}

/// What a process table is, mathematically.
pub struct ProcessTableModel {
    pub list: ListModel,
    pub armed: bool,
}

impl View for ProcessTable {
    type V = ProcessTableModel;

    closed spec fn view(&self) -> ProcessTableModel {
        ProcessTableModel { list: self.list@, armed: self.armed }
    }
}

/// The list after a key: `KEY_DOWN` and `k` step to the next record,
/// `KEY_UP` and `j` to the one before, `g` and `G` jump to the first and
/// the last; `m`, `c`, `n` and `C` choose the column that the list is
/// sorted by when its records are next replaced. Other keys, `d` among
/// them, leave the list alone.
pub open spec fn list_after_key(list: ListModel, key: Seq<char>) -> ListModel {
    if key == "d"@ {
        list
    } else if key == "KEY_DOWN"@ || key == "k"@ {
        after_next(list)
    } else if key == "KEY_UP"@ || key == "j"@ {
        after_previous(list)
    } else if key == "g"@ {
        after_first(list)
    } else if key == "G"@ {
        after_last(list)
    } else if key == "m"@ {
        ListModel { sort_key: "Memory %"@, ..list }
    } else if key == "c"@ {
        ListModel { sort_key: "CPU %"@, ..list }
    } else if key == "n"@ {
        ListModel { sort_key: "Name"@, ..list }
    } else if key == "C"@ {
        ListModel { sort_key: "Count"@, ..list }
    } else {
        list
    }
}

/// The name of the processes to kill after a key: that of the selected
/// record, on a `d` that follows directly on another `d`.
pub open spec fn kill_after_key(table: ProcessTableModel, key: Seq<char>) -> Option<Seq<char>> {
    if key == "d"@ && table.armed && table.list.items.len() > 0 {
        Some(table.list.items[table.list.cursor].name)
    } else {
        None
    }
}

/// The title of the widget for `count` processes.
pub open spec fn title_text(count: nat) -> Seq<char> {
    seq!['['] + decimal_digits(count) + "] Processes"@
}

impl ProcessTable {
    /// An empty table with the columns `Name`, `CPU %`, `Count` and
    /// `Memory %`, sorted by name, not armed.
    pub fn new() -> (table: ProcessTable)
        ensures
            table@.armed == false,
            table@.list.items.len() == 0,
            table@.list.primary == "Name"@,
            table@.list.secondary == seq!["CPU %"@, "Count"@, "Memory %"@],
            table@.list.sort_key == "Name"@,
            table@.list.height == 0,
            table@.list.width == 0,
            settled(table@.list),
    {
        let mut columns: Vec<String> = Vec::new();
        columns.push("CPU %".to_owned());
        columns.push("Count".to_owned());
        columns.push("Memory %".to_owned());
        let list = ListView::new(0, 0, &Vec::new(), "Name", columns);
        assert(list@.secondary =~= seq!["CPU %"@, "Count"@, "Memory %"@]);
        ProcessTable { list, armed: false }
    }

    /// Renders `processes` into a pane of the given size: the view takes
    /// the size, then the records, sorted, and gives its text.
    pub fn display(&mut self, h: i32, w: i32, processes: &Vec<ListItem>) -> (text: String)
        ensures
            final(self)@.armed == old(self)@.armed,
            final(self)@.list.height == h,
            final(self)@.list.width == w,
            final(self)@.list.items.len() == processes.len(),
            final(self)@.list.items.to_multiset() == views(processes@).to_multiset(),
            in_order(
                final(self)@.list.items,
                old(self)@.list.sort_key == old(self)@.list.primary,
                if old(self)@.list.sort_key == old(self)@.list.primary {
                    Seq::empty()
                } else {
                    old(self)@.list.sort_key
                },
            ),
            keeps_ties(
                views(processes@),
                final(self)@.list.items,
                old(self)@.list.sort_key == old(self)@.list.primary,
                if old(self)@.list.sort_key == old(self)@.list.primary {
                    Seq::empty()
                } else {
                    old(self)@.list.sort_key
                },
            ),
            final(self)@.list.primary == old(self)@.list.primary,
            final(self)@.list.secondary == old(self)@.list.secondary,
            final(self)@.list.sort_key == old(self)@.list.sort_key,
            final(self)@.list.cursor == clamped_cursor(
                processes.len() as int,
                old(self)@.list.cursor,
            ),
            final(self)@.list.scroll == settled_scroll(
                h as int,
                final(self)@.list.cursor,
                after_resize(old(self)@.list, h as int, w as int).scroll,
            ),
            settled(final(self)@.list),
            text@ == list_text(final(self)@.list),
    {
        self.list.resize(h, w);
        self.list.update_items(processes);
        self.list.display()
    }

    /// Handles a key. Returns the name of the processes that the caller is
    /// to kill, if the key confirmed a kill. Any key but `d` disarms.
    pub fn on_input(&mut self, key: &str) -> (kill: Option<String>)
        ensures
            final(self)@.list == list_after_key(old(self)@.list, key@),
            final(self)@.armed == (key@ == "d"@ && !old(self)@.armed),
            match kill {
                Some(name) => kill_after_key(old(self)@, key@) == Some(name@),
                None => kill_after_key(old(self)@, key@) is None,
            },
            settled(old(self)@.list) ==> settled(final(self)@.list),
    {
        if same_text(key, "d") {
            let kill = if self.armed {
                match self.list.select() {
                    Some(item) => Some(item.name.clone()),
                    None => None,
                }
            } else {
                None
            };
            self.armed = !self.armed;
            return kill;
        }
        self.armed = false;
        if same_text(key, "KEY_DOWN") || same_text(key, "k") {
            self.list.next();
        } else if same_text(key, "KEY_UP") || same_text(key, "j") {
            self.list.previous();
        } else if same_text(key, "g") {
            self.list.to_first();
        } else if same_text(key, "G") {
            self.list.to_last();
        } else if same_text(key, "m") {
            self.list.sort_by("Memory %");
        } else if same_text(key, "c") {
            self.list.sort_by("CPU %");
        } else if same_text(key, "n") {
            self.list.sort_by("Name");
        } else if same_text(key, "C") {
            self.list.sort_by("Count");
        }
        None
    }

    /// The title of the widget when it shows `count` processes.
    pub fn title(count: usize) -> (title: String)
        ensures
            title@ == title_text(count as nat),
    {
        let digits = numeral_of(count as u64);
        let mut title = String::new();
        title.push('[');
        push_chars(&mut title, &digits);
        title.append("] Processes");
        assert(title@ =~= title_text(count as nat));
        title
    }
}

} // verus!

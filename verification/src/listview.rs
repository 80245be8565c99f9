//! A list of named records shown as a table: one highlighted row that the
//! cursor keys move, a window that scrolls to keep it in sight, and an order
//! by name or by a numeric column.

use crate::sorting::{in_order, keeps_ties, sorted_by_name, sorted_by_number, views};
use crate::text::{chars_of, push_chars, spaces};
use vstd::prelude::*;
use vstd::string::StringExecFns;

verus! {

/// A record of the list: a name, and texts under column names. Where a
/// column name occurs more than once in `data`, its first entry counts.
pub struct ListItem {
    pub name: String,
    pub data: Vec<(String, String)>,
}

/// What a record is, mathematically: its name and its columns as a map from
/// column name to text.
pub struct ListItemView {
    pub name: Seq<char>,
    pub fields: Map<Seq<char>, Seq<char>>,
}

/// The map that a list of (column name, text) entries stands for. An entry
/// hides later entries of the same column.
pub open spec fn fields_of(entries: Seq<(String, String)>) -> Map<Seq<char>, Seq<char>>
    decreases entries.len(),
{
    if entries.len() == 0 {
        Map::empty()
    } else {
        fields_of(entries.drop_first()).insert(entries[0].0@, entries[0].1@)
    }
}

impl View for ListItem {
    type V = ListItemView;

    open spec fn view(&self) -> ListItemView {
        ListItemView { name: self.name@, fields: fields_of(self.data@) }
    }
}

/// The text of a record under a column; empty where it has none.
pub open spec fn value_of(item: ListItemView, column: Seq<char>) -> Seq<char> {
    if item.fields.dom().contains(column) {
        item.fields[column]
    } else {
        Seq::empty()
    }
}

/// A column that no entry names is not in the map.
proof fn lemma_fields_absent(entries: Seq<(String, String)>, column: Seq<char>)
    requires
        forall|j: int| 0 <= j < entries.len() ==> (#[trigger] entries[j]).0@ != column,
    ensures
        !fields_of(entries).dom().contains(column),
    decreases entries.len(),
{
    if entries.len() > 0 {
        let rest = entries.drop_first();
        assert forall|j: int| 0 <= j < rest.len() implies (#[trigger] rest[j]).0@ != column by {
            assert(rest[j] == entries[j + 1]);
        }
        lemma_fields_absent(rest, column);
    }
}

/// The first entry that names a column gives the column's text.
proof fn lemma_fields_first(entries: Seq<(String, String)>, i: int, column: Seq<char>)
    requires
        0 <= i < entries.len(),
        entries[i].0@ == column,
        forall|j: int| 0 <= j < i ==> (#[trigger] entries[j]).0@ != column,
    ensures
        fields_of(entries).dom().contains(column),
        fields_of(entries)[column] == entries[i].1@,
    decreases entries.len(),
{
    if i > 0 {
        let rest = entries.drop_first();
        assert forall|j: int| 0 <= j < i - 1 implies (#[trigger] rest[j]).0@ != column by {
            assert(rest[j] == entries[j + 1]);
        }
        assert(rest[i - 1] == entries[i]);
        lemma_fields_first(rest, i - 1, column);
        assert(entries[0].0@ != column);
    }
}

/// A copy of the entries of a record.
fn copied(entries: &Vec<(String, String)>) -> (copy: Vec<(String, String)>)
    ensures
        copy@ == entries@,
{
    let mut copy: Vec<(String, String)> = Vec::new();
    let mut i: usize = 0;
    while i < entries.len()
        invariant
            i <= entries.len(),
            copy@ == entries@.take(i as int),
        decreases entries.len() - i,
    {
        copy.push((entries[i].0.clone(), entries[i].1.clone()));
        i += 1;
        assert(copy@ =~= entries@.take(i as int));
    }
    assert(entries@.take(entries.len() as int) =~= entries@);
    copy
}

impl Clone for ListItem {
    fn clone(&self) -> (copy: ListItem)
        ensures
            copy.name@ == self.name@,
            copy.data@ == self.data@,
            copy@ == self@,
    {
        ListItem { name: self.name.clone(), data: copied(&self.data) }
    }
}

impl ListItem {
    /// A record with the given name and column entries.
    pub fn new(name: &str, data: &Vec<(String, String)>) -> (item: ListItem)
        ensures
            item.name@ == name@,
            item.data@ == data@,
            item@ == (ListItemView { name: name@, fields: fields_of(data@) }),
    {
        ListItem { name: name.to_owned(), data: copied(data) }
    }

    /// The text under `column`, if the record has that column.
    pub fn field(&self, column: &String) -> (text: Option<&String>)
        ensures
            match text {
                Some(found) => self@.fields.dom().contains(column@) && self@.fields[column@]
                    == found@,
                None => !self@.fields.dom().contains(column@),
            },
    {
        let mut i: usize = 0;
        while i < self.data.len()
            invariant
                i <= self.data.len(),
                forall|j: int| 0 <= j < i ==> (#[trigger] self.data@[j]).0@ != column@,
            decreases self.data.len() - i,
        {
            if self.data[i].0 == *column {
                proof {
                    lemma_fields_first(self.data@, i as int, column@);
                }
                return Some(&self.data[i].1);
            }
            i += 1;
        }
        proof {
            lemma_fields_absent(self.data@, column@);
        }
        None
    }
}

/// What a list view is, mathematically: its size in character cells, its
/// records in the order shown, its columns, the column it sorts by, the
/// index of the selected record and the index of the first record in sight.
pub struct ListModel {
    pub height: int,
    pub width: int,
    pub items: Seq<ListItemView>,
    pub primary: Seq<char>,
    pub secondary: Seq<Seq<char>>,
    pub sort_key: Seq<char>,
    pub cursor: int,
    pub scroll: int,
}

/// The texts of a sequence of strings.
pub open spec fn texts(strings: Seq<String>) -> Seq<Seq<char>> {
    strings.map_values(|s: String| s@)
}

/// The number of records that a view `height` rows high shows at once: one
/// row is the header's.
pub open spec fn visible_rows(height: int) -> int {
    if height > 1 {
        height - 1
    } else {
        0
    }
}

/// The last row, counted from 0 below the header, that the highlight may
/// stand on: `visible_rows - 1`, or 0 for a view too low to have one.
pub open spec fn last_row(height: int) -> int {
    if height > 2 {
        height - 2
    } else {
        0
    }
}

/// The state that every list view is in. With records: the cursor is on
/// one of them, and the window starts at or above it and reaches it.
/// Without: both are 0.
pub open spec fn settled(m: ListModel) -> bool {
    if m.items.len() == 0 {
        m.cursor == 0 && m.scroll == 0
    } else {
        &&& 0 <= m.scroll <= m.cursor < m.items.len()
        &&& m.cursor - m.scroll <= last_row(m.height)
    }
}

/// Where the window starts once it is brought back to the cursor: moved up
/// to the cursor if it was below it, moved down to have the cursor on the
/// last row if the cursor was beyond that, and otherwise left where it was.
pub open spec fn settled_scroll(height: int, cursor: int, scroll: int) -> int {
    if scroll > cursor {
        cursor
    } else if cursor - scroll > last_row(height) {
        cursor - last_row(height)
    } else {
        scroll
    }
}

/// The cursor brought back onto a list of `count` records: the last record
/// if it was beyond it, 0 for an empty list.
pub open spec fn clamped_cursor(count: int, cursor: int) -> int {
    if count <= 0 {
        0
    } else if cursor >= count {
        count - 1
    } else {
        cursor
    }
}

/// The state after a step down: nothing changes on the last record;
/// otherwise the cursor moves on by one, and the window with it where the
/// highlight already stood on the last row.
pub open spec fn after_next(m: ListModel) -> ListModel {
    if m.cursor + 1 < m.items.len() {
        ListModel {
            cursor: m.cursor + 1,
            scroll: if m.cursor - m.scroll >= last_row(m.height) {
                m.scroll + 1
            } else {
                m.scroll
            },
            ..m
        }
    } else {
        m
    }
}

/// The state after a step up: nothing changes on the first record;
/// otherwise the cursor moves back by one, and the window with it where the
/// highlight already stood on the first row.
pub open spec fn after_previous(m: ListModel) -> ListModel {
    if m.cursor > 0 {
        ListModel {
            cursor: m.cursor - 1,
            scroll: if m.cursor == m.scroll {
                m.scroll - 1
            } else {
                m.scroll
            },
            ..m
        }
    } else {
        m
    }
}

/// The state after a jump to the first record.
pub open spec fn after_first(m: ListModel) -> ListModel {
    ListModel { cursor: 0, scroll: 0, ..m }
}

/// The state after a jump to the last record: the window moves only if the
/// record would else be out of sight, and then just as far as puts it on the
/// last row. Nothing changes in an empty list.
pub open spec fn after_last(m: ListModel) -> ListModel {
    if m.items.len() == 0 {
        m
    } else {
        ListModel {
            cursor: m.items.len() - 1,
            scroll: settled_scroll(m.height, m.items.len() - 1, m.scroll),
            ..m
        }
    }
}

/// The state after a change of size: the cursor stays, and so does the
/// window unless the new height leaves the cursor out of sight; then it
/// moves just as far as puts the cursor on the last row.
pub open spec fn after_resize(m: ListModel, height: int, width: int) -> ListModel {
    ListModel {
        height,
        width,
        scroll: settled_scroll(height, m.cursor, m.scroll),
        ..m
    }
}

/// In a view that shows at least one record, the highlight is on one of the
/// rows in sight: the cursor is at most `visible_rows - 1` below the start
/// of the window and never above it.
pub proof fn lemma_cursor_in_sight(m: ListModel)
    requires
        settled(m),
        m.items.len() > 0,
        m.height >= 2,
    ensures
        0 <= m.cursor - m.scroll <= visible_rows(m.height) - 1,
        0 <= m.cursor < m.items.len(),
{
}

/// Every move of the cursor and every change of size leads from a settled
/// state to a settled state.
pub proof fn lemma_moves_keep_settled(m: ListModel, height: int, width: int)
    requires
        settled(m),
    ensures
        settled(after_next(m)),
        settled(after_previous(m)),
        settled(after_first(m)),
        settled(after_last(m)),
        settled(after_resize(m, height, width)),
{
}

/// The text cut or filled with blanks to exactly `width` characters;
/// empty for a width that is not positive.
pub open spec fn fit(text: Seq<char>, width: int) -> Seq<char> {
    if width <= 0 {
        Seq::empty()
    } else if text.len() >= width {
        text.take(width)
    } else {
        text + spaces(width - text.len())
    }
}

/// The cell of a name: the name cut or filled to one character less than
/// `width`, and a blank, so that a name never touches the column beside it.
pub open spec fn label_cell(label: Seq<char>, width: int) -> Seq<char> {
    if width <= 0 {
        Seq::empty()
    } else {
        fit(label, width - 1) + seq![' ']
    }
}

/// The heads of the further columns: each column's name and two blanks.
pub open spec fn header_columns(keys: Seq<Seq<char>>) -> Seq<char>
    decreases keys.len(),
{
    if keys.len() == 0 {
        Seq::empty()
    } else {
        header_columns(keys.drop_last()) + keys.last() + spaces(2)
    }
}

/// The cells of a record under the further columns: for each column the
/// record's text there, cut or filled to the width of the column's head, and
/// blanks where the record has no such column.
pub open spec fn item_columns(item: ListItemView, keys: Seq<Seq<char>>) -> Seq<char>
    decreases keys.len(),
{
    if keys.len() == 0 {
        Seq::empty()
    } else {
        item_columns(item, keys.drop_last()) + fit(
            value_of(item, keys.last()),
            keys.last().len() as int + 2,
        )
    }
}

/// One line of the table, exactly `width` characters: the cell of the name
/// in what the further columns leave of the width, then these columns, cut
/// at the right edge where they alone are wider than the view.
pub open spec fn line_cells(label: Seq<char>, columns: Seq<char>, width: int) -> Seq<char> {
    fit(label_cell(label, width - columns.len()) + columns, width)
}

/// The marker that stands before and behind the selected row, for the
/// terminal to show what is between in reverse video.
pub open spec fn highlight() -> Seq<char> {
    "[[EFFECT_REVERSE]]"@
}

/// The line of record `i` with its line feed, between two markers if the
/// cursor is on it.
pub open spec fn row_text(m: ListModel, i: int) -> Seq<char> {
    let cells = line_cells(m.items[i].name, item_columns(m.items[i], m.secondary), m.width);
    if i == m.cursor {
        highlight() + cells + highlight() + seq!['\n']
    } else {
        cells + seq!['\n']
    }
}

/// The lines of the records from index `from` up to, not including, `to`.
pub open spec fn rows_text(m: ListModel, from: int, to: int) -> Seq<char>
    decreases to - from,
{
    if to <= from {
        Seq::empty()
    } else {
        rows_text(m, from, to - 1) + row_text(m, to - 1)
    }
}

/// The index of the first record shown: the start of the window, or 0 for
/// a list that fits the view whole.
pub open spec fn shown_start(m: ListModel) -> int {
    if m.items.len() <= visible_rows(m.height) {
        0
    } else {
        m.scroll
    }
}

/// The index behind the last record shown.
pub open spec fn shown_end(m: ListModel) -> int {
    if shown_start(m) + visible_rows(m.height) < m.items.len() {
        shown_start(m) + visible_rows(m.height)
    } else {
        m.items.len() as int
    }
}

/// The header line: the names of the columns.
pub open spec fn header_text(m: ListModel) -> Seq<char> {
    line_cells(m.primary, header_columns(m.secondary), m.width) + seq!['\n']
}

/// The whole table: the header line, then the lines of the records shown:
/// all of them if they fit the view, else those from the start of the
/// window on, as many as the view has rows for.
pub open spec fn list_text(m: ListModel) -> Seq<char> {
    header_text(m) + rows_text(m, shown_start(m), shown_end(m))
}

/// Every line of the table is exactly as wide as the view.
pub proof fn lemma_line_width(label: Seq<char>, columns: Seq<char>, width: int)
    ensures
        line_cells(label, columns, width).len() == if width > 0 {
            width
        } else {
            0
        },
{
}

/// Appends `text` cut or filled to `width` characters.
fn push_fit(out: &mut Vec<char>, text: &Vec<char>, width: usize)
    ensures
        final(out)@ == old(out)@ + fit(text@, width as int),
{
    let mut i: usize = 0;
    while i < width
        invariant
            i <= width,
            out@ == old(out)@ + fit(text@, width as int).take(i as int),
        decreases width - i,
    {
        if i < text.len() {
            out.push(text[i]);
        } else {
            out.push(' ');
        }
        i += 1;
        assert(out@ =~= old(out)@ + fit(text@, width as int).take(i as int));
    }
    assert(fit(text@, width as int).take(width as int) =~= fit(text@, width as int));
}

/// One line of the table.
fn line_cells_of(label: &Vec<char>, columns: &Vec<char>, width: i32) -> (cells: Vec<char>)
    ensures
        cells@ == line_cells(label@, columns@, width as int),
{
    let mut cells: Vec<char> = Vec::new();
    if width <= 0 {
        assert(cells@ =~= line_cells(label@, columns@, width as int));
        return cells;
    }
    let wide: usize = width as usize;
    if columns.len() < wide {
        push_fit(&mut cells, label, wide - columns.len() - 1);
        cells.push(' ');
        let mut i: usize = 0;
        let ghost front = cells@;
        while i < columns.len()
            invariant
                i <= columns.len(),
                cells@ == front + columns@.take(i as int),
            decreases columns.len() - i,
        {
            cells.push(columns[i]);
            i += 1;
            assert(cells@ =~= front + columns@.take(i as int));
        }
        assert(columns@.take(columns.len() as int) =~= columns@);
        assert(cells@ =~= line_cells(label@, columns@, width as int));
    } else {
        let mut i: usize = 0;
        while i < wide
            invariant
                i <= wide,
                wide <= columns.len(),
                cells@ == columns@.take(i as int),
            decreases wide - i,
        {
            cells.push(columns[i]);
            i += 1;
            assert(cells@ =~= columns@.take(i as int));
        }
        assert(cells@ =~= line_cells(label@, columns@, width as int));
    }
    cells
}

/// The cursor and the start of the window.
struct Place {
    counter: usize,
    start_index: usize,
}

/// A scrollable table of records with one selected row.
pub struct ListView {
    height: i32,
    width: i32,
    items: Vec<ListItem>,
    primary_key: String,
    secondary_keys: Vec<String>,
    sort_key: String,
    place: Place,
}

impl View for ListView {
    type V = ListModel;

    closed spec fn view(&self) -> ListModel {
        ListModel {
            height: self.height as int,
            width: self.width as int,
            items: views(self.items@),
            primary: self.primary_key@,
            secondary: texts(self.secondary_keys@),
            sort_key: self.sort_key@,
            cursor: self.place.counter as int,
            scroll: self.place.start_index as int,
        }
    }
}

/// Where the window starts once it is brought back to the cursor.
fn settle(height: i32, cursor: usize, scroll: usize) -> (start: usize)
    ensures
        start == settled_scroll(height as int, cursor as int, scroll as int),
{
    let last: usize = if height > 2 {
        (height - 2) as usize
    } else {
        0
    };
    if scroll > cursor {
        cursor
    } else if cursor - scroll > last {
        cursor - last
    } else {
        scroll
    }
}

impl ListView {
    #[verifier::type_invariant]
    spec fn inv(&self) -> bool {
        settled(self@)
    }

    /// A view of the given size on `items`, sorted by name, records of equal
    /// rank in the order in which they came, with the cursor on the first of
    /// them. `primary_key` heads the column of names,
    /// `secondary_keys` name the further columns.
    pub fn new(
        height: i32,
        width: i32,
        items: &Vec<ListItem>,
        primary_key: &str,
        secondary_keys: Vec<String>,
    ) -> (list: ListView)
        ensures
            list@.height == height,
            list@.width == width,
            list@.items.len() == items.len(),
            list@.items.to_multiset() == views(items@).to_multiset(),
            in_order(list@.items, true, Seq::empty()),
            keeps_ties(views(items@), list@.items, true, Seq::empty()),
            list@.primary == primary_key@,
            list@.secondary == texts(secondary_keys@),
            list@.sort_key == primary_key@,
            list@.cursor == 0,
            list@.scroll == 0,
            settled(list@),
    {
        let sorted = sorted_by_name(items);
        proof {
            views(sorted@).to_multiset_ensures();
            views(items@).to_multiset_ensures();
        }
        ListView {
            height,
            width,
            items: sorted,
            primary_key: primary_key.to_owned(),
            secondary_keys,
            sort_key: primary_key.to_owned(),
            place: Place { counter: 0, start_index: 0 },
        }
    }

    /// The index of the selected record among the records in the order
    /// shown; 0 in an empty list.
    pub fn cursor(&self) -> (index: usize)
        ensures
            index == self@.cursor,
            settled(self@),
    {
        proof {
            use_type_invariant(self);
        }
        self.place.counter
    }

    /// The index of the first record in sight.
    pub fn scroll(&self) -> (index: usize)
        ensures
            index == self@.scroll,
            settled(self@),
    {
        proof {
            use_type_invariant(self);
        }
        self.place.start_index
    }

    /// Moves the cursor to the record before.
    pub fn previous(&mut self)
        ensures
            final(self)@ == after_previous(old(self)@),
            settled(final(self)@),
    {
        proof {
            use_type_invariant(&*self);
        }
        if self.place.counter > 0 {
            let start: usize = if self.place.counter == self.place.start_index {
                self.place.start_index - 1
            } else {
                self.place.start_index
            };
            self.place = Place { counter: self.place.counter - 1, start_index: start };
        }
    }

    /// Moves the cursor to the record after.
    pub fn next(&mut self)
        ensures
            final(self)@ == after_next(old(self)@),
            settled(final(self)@),
    {
        proof {
            use_type_invariant(&*self);
            assert(self@.items.len() == self.items.len());
        }
        if self.place.counter < self.items.len() && self.place.counter + 1 < self.items.len() {
            let last: usize = if self.height > 2 {
                (self.height - 2) as usize
            } else {
                0
            };
            let start: usize = if self.place.counter - self.place.start_index >= last {
                self.place.start_index + 1
            } else {
                self.place.start_index
            };
            self.place = Place { counter: self.place.counter + 1, start_index: start };
        }
    }

    /// Moves the cursor to the last record.
    pub fn to_last(&mut self)
        ensures
            final(self)@ == after_last(old(self)@),
            settled(final(self)@),
    {
        proof {
            use_type_invariant(&*self);
            assert(self@.items.len() == self.items.len());
        }
        if self.items.len() > 0 {
            let counter: usize = self.items.len() - 1;
            let start = settle(self.height, counter, self.place.start_index);
            self.place = Place { counter, start_index: start };
        }
    }

    /// Moves the cursor to the first record.
    pub fn to_first(&mut self)
        ensures
            final(self)@ == after_first(old(self)@),
            settled(final(self)@),
    {
        self.place = Place { counter: 0, start_index: 0 };
    }

    /// Gives the view a new size. The window moves only if the cursor would
    /// else be out of sight.
    pub fn resize(&mut self, height: i32, width: i32)
        ensures
            final(self)@ == after_resize(old(self)@, height as int, width as int),
            settled(final(self)@),
    {
        proof {
            use_type_invariant(&*self);
            assert(self@.items.len() == self.items.len());
        }
        let counter: usize = self.place.counter;
        let start = settle(height, counter, self.place.start_index);
        self.place = Place { counter: 0, start_index: 0 };
        self.height = height;
        self.width = width;
        self.place = Place { counter, start_index: start };
    }

    /// Replaces the records by `items`, sorted by the column set with
    /// `sort_by`: by name if that is the column of names, else by the number
    /// in that column, greatest first; records of equal rank stay in the
    /// order in which they came. The cursor stays at its index, or goes
    /// to the last record if the list became too short for it, and the window
    /// is brought back to it.
    pub fn update_items(&mut self, items: &Vec<ListItem>)
        ensures
            final(self)@.items.len() == items.len(),
            final(self)@.items.to_multiset() == views(items@).to_multiset(),
            in_order(
                final(self)@.items,
                old(self)@.sort_key == old(self)@.primary,
                if old(self)@.sort_key == old(self)@.primary {
                    Seq::empty()
                } else {
                    old(self)@.sort_key
                },
            ),
            keeps_ties(
                views(items@),
                final(self)@.items,
                old(self)@.sort_key == old(self)@.primary,
                if old(self)@.sort_key == old(self)@.primary {
                    Seq::empty()
                } else {
                    old(self)@.sort_key
                },
            ),
            final(self)@.cursor == clamped_cursor(items.len() as int, old(self)@.cursor),
            final(self)@.scroll == settled_scroll(
                old(self)@.height,
                final(self)@.cursor,
                old(self)@.scroll,
            ),
            final(self)@.height == old(self)@.height,
            final(self)@.width == old(self)@.width,
            final(self)@.primary == old(self)@.primary,
            final(self)@.secondary == old(self)@.secondary,
            final(self)@.sort_key == old(self)@.sort_key,
            settled(final(self)@),
    {
        let sorted = if self.sort_key == self.primary_key {
            sorted_by_name(items)
        } else {
            sorted_by_number(items, &self.sort_key)
        };
        proof {
            views(sorted@).to_multiset_ensures();
            views(items@).to_multiset_ensures();
        }
        let count: usize = sorted.len();
        let counter: usize = if count == 0 {
            0
        } else if self.place.counter >= count {
            count - 1
        } else {
            self.place.counter
        };
        let start = settle(self.height, counter, self.place.start_index);
        self.place = Place { counter: 0, start_index: 0 };
        self.items = sorted;
        self.place = Place { counter, start_index: start };
    }

    /// The heads of the further columns, and the width of each.
    fn header_columns_of(&self) -> (heads: (Vec<char>, Vec<usize>))
        ensures
            heads.0@ == header_columns(self@.secondary),
            heads.1.len() == self.secondary_keys.len(),
            forall|k: int|
                0 <= k < heads.1.len() ==> #[trigger] heads.1[k] == self.secondary_keys[k]@.len() + 2,
    {
        let mut columns: Vec<char> = Vec::new();
        let mut widths: Vec<usize> = Vec::new();
        let ghost keys = texts(self.secondary_keys@);
        let mut k: usize = 0;
        while k < self.secondary_keys.len()
            invariant
                k <= self.secondary_keys.len(),
                keys == texts(self.secondary_keys@),
                columns@ == header_columns(keys.take(k as int)),
                widths.len() == k,
                forall|j: int|
                    0 <= j < k ==> #[trigger] widths[j] == self.secondary_keys[j]@.len() + 2,
            decreases self.secondary_keys.len() - k,
        {
            let before: usize = columns.len();
            let key = chars_of(self.secondary_keys[k].as_str());
            let mut i: usize = 0;
            let ghost front = columns@;
            while i < key.len()
                invariant
                    i <= key.len(),
                    columns@ == front + key@.take(i as int),
                decreases key.len() - i,
            {
                columns.push(key[i]);
                i += 1;
                assert(columns@ =~= front + key@.take(i as int));
            }
            columns.push(' ');
            columns.push(' ');
            widths.push(columns.len() - before);
            proof {
                assert(key@.take(key.len() as int) =~= key@);
                assert(keys.take(k + 1).drop_last() =~= keys.take(k as int));
                assert(keys.take(k + 1).last() == key@);
                assert(columns@ =~= front + key@ + spaces(2));
            }
            k += 1;
        }
        assert(keys.take(k as int) =~= keys);
        (columns, widths)
    }

    /// The cells of a record under the further columns.
    fn item_columns_of(&self, item: &ListItem, widths: &Vec<usize>) -> (columns: Vec<char>)
        requires
            widths.len() == self.secondary_keys.len(),
            forall|k: int|
                0 <= k < widths.len() ==> #[trigger] widths[k] == self.secondary_keys[k]@.len() + 2,
        ensures
            columns@ == item_columns(item@, self@.secondary),
    {
        let mut columns: Vec<char> = Vec::new();
        let ghost keys = texts(self.secondary_keys@);
        let mut k: usize = 0;
        while k < self.secondary_keys.len()
            invariant
                k <= self.secondary_keys.len(),
                keys == texts(self.secondary_keys@),
                widths.len() == self.secondary_keys.len(),
                forall|j: int|
                    0 <= j < widths.len() ==> #[trigger] widths[j] == self.secondary_keys[j]@.len()
                        + 2,
                columns@ == item_columns(item@, keys.take(k as int)),
            decreases self.secondary_keys.len() - k,
        {
            let value = match item.field(&self.secondary_keys[k]) {
                Some(text) => chars_of(text.as_str()),
                None => Vec::new(),
            };
            proof {
                assert(keys.take(k + 1).drop_last() =~= keys.take(k as int));
                assert(keys.take(k + 1).last() == self.secondary_keys[k as int]@);
                assert(value@ =~= value_of(item@, self.secondary_keys[k as int]@));
            }
            push_fit(&mut columns, &value, widths[k]);
            k += 1;
        }
        assert(keys.take(k as int) =~= keys);
        columns
    }

    /// The table as text.
    fn render(&self) -> (text: String)
        ensures
            text@ == list_text(self@),
    {
        proof {
            use_type_invariant(self);
            assert(self@.items.len() == self.items.len());
        }
        let (heads, widths) = self.header_columns_of();
        let primary = chars_of(self.primary_key.as_str());
        let cells = line_cells_of(&primary, &heads, self.width);
        let mut text = String::new();
        push_chars(&mut text, &cells);
        text.push('\n');
        assert(text@ =~= header_text(self@));
        let visible: usize = if self.height > 1 {
            (self.height - 1) as usize
        } else {
            0
        };
        let start: usize = if self.items.len() <= visible {
            0
        } else {
            self.place.start_index
        };
        let end: usize = if visible < self.items.len() - start {
            start + visible
        } else {
            self.items.len()
        };
        let mut i: usize = start;
        assert(text@ =~= header_text(self@) + rows_text(self@, start as int, i as int));
        while i < end
            invariant
                start <= i <= end,
                end <= self.items.len(),
                self@.items.len() == self.items.len(),
                widths.len() == self.secondary_keys.len(),
                forall|k: int|
                    0 <= k < widths.len() ==> #[trigger] widths[k] == self.secondary_keys[k]@.len()
                        + 2,
                text@ == header_text(self@) + rows_text(self@, start as int, i as int),
            decreases end - i,
        {
            let item = &self.items[i];
            let name = chars_of(item.name.as_str());
            let columns = self.item_columns_of(item, &widths);
            let cells = line_cells_of(&name, &columns, self.width);
            let ghost before = text@;
            assert(self@.items[i as int] == item@);
            if i == self.place.counter {
                text.append("[[EFFECT_REVERSE]]");
                push_chars(&mut text, &cells);
                text.append("[[EFFECT_REVERSE]]");
            } else {
                push_chars(&mut text, &cells);
            }
            text.push('\n');
            assert(text@ =~= before + row_text(self@, i as int));
            i += 1;
            assert(text@ =~= header_text(self@) + rows_text(self@, start as int, i as int));
        }
        text
    }

    /// The table as text: the header line and the lines of the records in
    /// sight, each as wide as the view and ended by a line feed, the
    /// selected one between two markers. The view stays as it is.
    pub fn display(&mut self) -> (text: String)
        ensures
            final(self)@ == old(self)@,
            text@ == list_text(old(self)@),
            settled(final(self)@),
    {
        proof {
            use_type_invariant(&*self);
        }
        self.render()
    }

    /// The selected record; `None` in an empty list.
    pub fn select(&self) -> (selected: Option<&ListItem>)
        ensures
            match selected {
                Some(item) => self@.items.len() > 0 && item@ == self@.items[self@.cursor],
                None => self@.items.len() == 0,
            },
            settled(self@),
    {
        proof {
            use_type_invariant(self);
            assert(self@.items.len() == self.items.len());
        }
        if self.items.len() > 0 {
            Some(&self.items[self.place.counter])
        } else {
            None
        }
    }

    /// Sets the column that `update_items` sorts by. The records stay in
    /// their order until they are next replaced.
    pub fn sort_by(&mut self, key: &str)
        ensures
            final(self)@ == (ListModel { sort_key: key@, ..old(self)@ }),
            settled(final(self)@),
    {
        proof {
            use_type_invariant(&*self);
        }
        self.sort_key = key.to_owned();
    }
}

} // verus!

//! Text-mode widgets for a terminal resource monitor, and the rules of the
//! dashboard that hosts them.
//!
//! * `chart`: a sparkline of percentage samples drawn with Braille glyphs.
//! * `listview`: a sortable, scrollable table of records with one selected
//!   row; `sorting`, `order` and `decimal` hold its two orders, by name and
//!   by the number in a column.
//! * `process_table`: the list view as the process list uses it, with its
//!   keys.
//! * `markup` and `style`: the markers in widget texts that switch styles.
//! * `layout`, `navigation`, `pages`: where the panes of a page go, what the
//!   dashboard's own keys do, and what a page may hold.
//! * `plugin`: the interface of a widget.
//!
//! Every function is specified over mathematical models (`Seq<char>` for
//! text, `int` for sizes and indices) and proved against its contract.

pub mod chart;
pub mod decimal;
pub mod layout;
pub mod listview;
pub mod markup;
pub mod navigation;
pub mod order;
pub mod pages;
pub mod plugin;
pub mod process_table;
pub mod sorting;
pub mod style;
pub mod text;

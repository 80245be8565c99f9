//! A sparkline chart: a series of percentage samples drawn as columns of
//! Braille glyphs, two samples per character cell and four fill levels per
//! character row, with the most recent sample on the right edge.

use crate::text::{decimal_of, decimal_text, push_chars, push_spaces, spaces};
use vstd::prelude::*;

verus! {

/// A chart of a fixed size in character cells.
pub struct Chart {
    cols: i32,
    rows: i32,
    show_pourcent: bool,
}

/// What a chart is, mathematically: its size and whether the top row is
/// given to a label with the latest value. The label row is taken out of
/// `rows`; it is not added to it.
pub struct ChartView {
    pub columns: int,
    pub rows: int,
    pub show_label: bool,
}

impl View for Chart {
    type V = ChartView;

    closed spec fn view(&self) -> ChartView {
        ChartView {
            columns: self.cols as int,
            rows: self.rows as int,
            show_label: self.show_pourcent,
        }
    }
}

/// How many of `count` samples are drawn by a chart `columns` wide: all of
/// them while they are at most `2 * columns - 1`, and that many of the most
/// recent ones afterwards. A chart without a column draws none.
pub open spec fn window_len(count: int, columns: int) -> int {
    if columns <= 0 || count <= 0 {
        0
    } else if count <= 2 * columns - 1 {
        count
    } else {
        2 * columns - 1
    }
}

/// The samples that are drawn: the most recent `window_len` ones, oldest
/// first.
pub open spec fn window(samples: Seq<i32>, columns: int) -> Seq<i32> {
    samples.subrange(
        samples.len() - window_len(samples.len() as int, columns),
        samples.len() as int,
    )
}

/// The height of a sample's bar in quarters of a character row: the sample
/// as a percentage of the full height `4 * rows`, rounded to the nearest
/// quarter (halves upwards) and never less than one quarter.
pub open spec fn quarter_height(sample: int, rows: int) -> int {
    let rounded = (sample * rows * 4 + 50) / 100;
    if rounded < 1 {
        1
    } else {
        rounded
    }
}

/// How many of the four quarters of character row `row` (counted from the
/// bottom, starting at 0) the bar of `sample` fills.
pub open spec fn fill_level(sample: int, rows: int, row: int) -> int {
    let above = quarter_height(sample, rows) - 4 * row;
    if above < 0 {
        0
    } else if above > 4 {
        4
    } else {
        above
    }
}

/// The Braille dots of the left half of a cell filled from the bottom up to
/// `level` quarters.
pub open spec fn left_dots(level: int) -> int {
    if level <= 0 {
        0
    } else if level == 1 {
        0x40
    } else if level == 2 {
        0x44
    } else if level == 3 {
        0x46
    } else {
        0x47
    }
}

/// The Braille dots of the right half of a cell filled from the bottom up to
/// `level` quarters.
pub open spec fn right_dots(level: int) -> int {
    if level <= 0 {
        0
    } else if level == 1 {
        0x80
    } else if level == 2 {
        0xA0
    } else if level == 3 {
        0xB0
    } else {
        0xB8
    }
}

/// The character for a cell whose left half is filled to `left` quarters and
/// whose right half to `right` quarters, each between 0 and 4: the Braille
/// pattern with those dots, or a blank when both are empty.
pub open spec fn glyph(left: int, right: int) -> char {
    if left <= 0 && right <= 0 {
        ' '
    } else {
        (0x2800 + left_dots(left) + right_dots(right)) as char
    }
}

/// The number of character cells that `count` samples take.
pub open spec fn glyph_count(count: int) -> int {
    (count + 1) / 2
}

/// How many quarters of character row `row` are filled in the half cell of
/// position `i` among the drawn samples: the fill level of the sample
/// there. A position outside the drawn samples holds no sample, and its
/// half stays empty in every row.
pub open spec fn level_at(drawn: Seq<i32>, rows: int, row: int, i: int) -> int {
    if 0 <= i < drawn.len() {
        fill_level(drawn[i] as int, rows, row)
    } else {
        0
    }
}

/// The position among the drawn samples of the one in the right half of
/// cell `k`; the left half holds the one before it. Samples are paired
/// from the most recent backwards, so with an odd number of them the left
/// half of the first cell has no sample.
pub open spec fn right_sample(count: int, k: int) -> int {
    2 * k + 1 - count % 2
}

/// The glyph of cell `k` (from the left) in character row `row`.
pub open spec fn row_glyph(drawn: Seq<i32>, rows: int, row: int, k: int) -> char {
    let right = right_sample(drawn.len() as int, k);
    glyph(level_at(drawn, rows, row, right - 1), level_at(drawn, rows, row, right))
}

/// The glyphs of character row `row`, oldest samples first.
pub open spec fn row_glyphs(drawn: Seq<i32>, rows: int, row: int) -> Seq<char> {
    Seq::new(glyph_count(drawn.len() as int) as nat, |k: int| row_glyph(drawn, rows, row, k))
}

/// One line of the chart: the glyphs of character row `row`, pushed against
/// the right edge by blanks, and a line feed.
pub open spec fn row_text(drawn: Seq<i32>, columns: int, rows: int, row: int) -> Seq<char> {
    spaces(columns - glyph_count(drawn.len() as int)) + row_glyphs(drawn, rows, row) + seq!['\n']
}

/// The lines of character rows `count - 1` down to 0, top row first.
pub open spec fn rows_text(drawn: Seq<i32>, columns: int, rows: int, count: nat) -> Seq<char>
    decreases count,
{
    if count == 0 {
        Seq::empty()
    } else {
        row_text(drawn, columns, rows, count - 1) + rows_text(
            drawn,
            columns,
            rows,
            (count - 1) as nat,
        )
    }
}

/// The label line: the most recent sample as a decimal numeral followed by
/// `%`, pushed against the right edge by blanks, and a line feed. There is
/// none without a label or without a drawn sample.
pub open spec fn label_text(chart: ChartView, drawn: Seq<i32>) -> Seq<char> {
    if chart.show_label && drawn.len() > 0 {
        let numeral = decimal_text(drawn.last() as int);
        spaces(chart.columns - numeral.len() - 1) + numeral + seq!['%', '\n']
    } else {
        Seq::empty()
    }
}

/// The number of character rows that hold glyphs: all of them, or one less
/// when the top row is the label's. Not positive for a chart too low to
/// hold any.
pub open spec fn data_rows(chart: ChartView) -> int {
    if chart.show_label {
        chart.rows - 1
    } else {
        chart.rows
    }
}

/// The whole rendering: the label line, if any, then the glyph rows from the
/// top down.
pub open spec fn chart_text(chart: ChartView, samples: Seq<i32>) -> Seq<char> {
    let drawn = window(samples, chart.columns);
    let shown = data_rows(chart);
    label_text(chart, drawn) + rows_text(
        drawn,
        chart.columns,
        chart.rows,
        if shown > 0 {
            shown as nat
        } else {
            0
        },
    )
}

/// Samples older than the most recent `2 * columns - 1` never show: a
/// series that has at least that many samples renders the same with any
/// older samples put before it.
pub proof fn lemma_older_samples_ignored(chart: ChartView, older: Seq<i32>, recent: Seq<i32>)
    requires
        recent.len() >= 2 * chart.columns - 1,
    ensures
        chart_text(chart, older + recent) == chart_text(chart, recent),
{
    assert(window(older + recent, chart.columns) =~= window(recent, chart.columns));
}

/// Raising a sample never lowers its bar in any character row that the chart
/// draws.
pub proof fn lemma_fill_level_monotonic(chart: ChartView, row: int, lower: int, higher: int)
    requires
        0 <= row < data_rows(chart),
        lower <= higher,
    ensures
        fill_level(lower, chart.rows, row) <= fill_level(higher, chart.rows, row),
{
    let rows = chart.rows;
    assert(lower * rows * 4 <= higher * rows * 4) by (nonlinear_arith)
        requires
            lower <= higher,
            rows >= 0,
    ;
}

/// A sample above zero shows in the bottom row of any chart that draws at
/// least one row of glyphs: its bar fills a quarter or more there, so the
/// cell that holds it is not blank, whatever shares the cell with it.
pub proof fn lemma_positive_sample_visible(chart: ChartView, sample: int, neighbour: int)
    requires
        sample > 0,
        data_rows(chart) >= 1,
    ensures
        exists|row: int| 0 <= row < data_rows(chart) && fill_level(sample, chart.rows, row) >= 1,
        fill_level(sample, chart.rows, 0) >= 1,
        glyph(fill_level(sample, chart.rows, 0), fill_level(neighbour, chart.rows, 0)) != ' ',
        glyph(fill_level(neighbour, chart.rows, 0), fill_level(sample, chart.rows, 0)) != ' ',
{
    assert(0 <= 0 < data_rows(chart) && fill_level(sample, chart.rows, 0) >= 1);
}

/// The number of samples that a chart `cols` wide draws out of `total`.
fn drawn_count(total: usize, cols: i32) -> (kept: usize)
    ensures
        kept == window_len(total as int, cols as int),
{
    if cols <= 0 {
        0
    } else {
        let most: u64 = 2 * (cols as u64) - 1;
        if total as u64 <= most {
            total
        } else {
            most as usize
        }
    }
}

/// The fill level of one sample in one character row.
fn fill_of(sample: i32, rows: i32, row: i64) -> (level: u8)
    ensures
        level == fill_level(sample as int, rows as int, row as int),
        level <= 4,
{
    assert(-0x4000_0000_0000_0000 <= sample * rows <= 0x4000_0000_0000_0000) by (nonlinear_arith)
        requires
            -0x8000_0000 <= sample <= 0x7fff_ffff,
            -0x8000_0000 <= rows <= 0x7fff_ffff,
    ;
    let scaled: i128 = (sample as i128) * (rows as i128) * 4 + 50;
    let quarters: i128 = if scaled < 100 {
        1
    } else {
        scaled / 100
    };
    let above: i128 = quarters - 4 * (row as i128);
    if above <= 0 {
        0
    } else if above >= 4 {
        4
    } else {
        above as u8
    }
}

/// The table of the 25 cell glyphs, by the fill levels of the two halves.
fn glyph_of(left: u8, right: u8) -> (cell: char)
    requires
        left <= 4,
        right <= 4,
    ensures
        cell == glyph(left as int, right as int),
{
    match left {
        0 => match right {
            0 => ' ',
            1 => '⢀',
            2 => '⢠',
            3 => '⢰',
            _ => '⢸',
        },
        1 => match right {
            0 => '⡀',
            1 => '⣀',
            2 => '⣠',
            3 => '⣰',
            _ => '⣸',
        },
        2 => match right {
            0 => '⡄',
            1 => '⣄',
            2 => '⣤',
            3 => '⣴',
            _ => '⣼',
        },
        3 => match right {
            0 => '⡆',
            1 => '⣆',
            2 => '⣦',
            3 => '⣶',
            _ => '⣾',
        },
        _ => match right {
            0 => '⡇',
            1 => '⣇',
            2 => '⣧',
            3 => '⣷',
            _ => '⣿',
        },
    }
}

impl Chart {
    /// A chart `cols` cells wide and `rows` cells high. With `show_pourcent`
    /// its top row shows the latest value.
    pub fn new(cols: i32, rows: i32, show_pourcent: bool) -> (chart: Chart)
        ensures
            chart@ == (ChartView { columns: cols as int, rows: rows as int, show_label: show_pourcent }),
    {
        Chart { cols, rows, show_pourcent }
    }

    /// Gives the chart a new size. The label setting stays.
    pub fn resize(&mut self, cols: i32, rows: i32)
        ensures
            final(self)@ == (ChartView {
                columns: cols as int,
                rows: rows as int,
                show_label: old(self)@.show_label,
            }),
    {
        self.cols = cols;
        self.rows = rows;
    }

    /// Appends the line of character row `row` for the samples from `first`
    /// on.
    fn push_row(&self, out: &mut String, samples: &Vec<i32>, first: usize, row: i64)
        requires
            first <= samples.len(),
            samples.len() - first == window_len(samples.len() as int, self.cols as int),
        ensures
            final(out)@ == old(out)@ + row_text(
                window(samples@, self.cols as int),
                self.cols as int,
                self.rows as int,
                row as int,
            ),
    {
        let ghost drawn = window(samples@, self.cols as int);
        let ghost rows = self.rows as int;
        let kept: usize = samples.len() - first;
        let cells: usize = kept / 2 + kept % 2;
        let odd: usize = kept % 2;
        let pad: usize = if self.cols > 0 && self.cols as usize > cells {
            self.cols as usize - cells
        } else {
            0
        };
        assert(spaces(pad as int) =~= spaces(self.cols - glyph_count(drawn.len() as int)));
        push_spaces(out, pad);
        let mut k: usize = 0;
        while k < cells
            invariant
                k <= cells,
                first <= samples.len(),
                kept == samples.len() - first,
                cells == glyph_count(kept as int),
                odd == kept % 2,
                drawn == samples@.subrange(first as int, samples.len() as int),
                rows == self.rows,
                out@ == old(out)@ + spaces(pad as int) + row_glyphs(drawn, rows, row as int).take(
                    k as int,
                ),
            decreases cells - k,
        {
            let right: usize = 2 * k + 1 - odd;
            let right_level = fill_of(samples[first + right], self.rows, row);
            let left_level = if right >= 1 {
                fill_of(samples[first + right - 1], self.rows, row)
            } else {
                0
            };
            out.push(glyph_of(left_level, right_level));
            k += 1;
            assert(out@ =~= old(out)@ + spaces(pad as int) + row_glyphs(
                drawn,
                rows,
                row as int,
            ).take(k as int));
        }
        out.push('\n');
        assert(out@ =~= old(out)@ + row_text(drawn, self.cols as int, rows, row as int));
    }

    /// Draws the most recent of `pourcents`, each a percentage between 0
    /// and 100. A value outside that range is drawn as the formula has it:
    /// at least one quarter high, at most the full height.
    pub fn display(&self, pourcents: &Vec<i32>) -> (text: String)
        ensures
            text@ == chart_text(self@, pourcents@),
    {
        let total: usize = pourcents.len();
        let kept: usize = drawn_count(total, self.cols);
        let first: usize = total - kept;
        let ghost drawn = window(pourcents@, self.cols as int);
        let mut text = String::new();
        if self.show_pourcent && kept > 0 {
            let numeral = decimal_of(pourcents[total - 1]);
            let width: i64 = self.cols as i64 - 1;
            let pad: usize = if width > 0 && width as usize > numeral.len() {
                width as usize - numeral.len()
            } else {
                0
            };
            assert(spaces(pad as int) =~= spaces(self.cols - numeral@.len() - 1));
            push_spaces(&mut text, pad);
            push_chars(&mut text, &numeral);
            text.push('%');
            text.push('\n');
            assert(text@ =~= label_text(self@, drawn));
        }
        assert(text@ =~= label_text(self@, drawn));
        let shown: i64 = if self.show_pourcent {
            self.rows as i64 - 1
        } else {
            self.rows as i64
        };
        let mut row: i64 = if shown > 0 {
            shown
        } else {
            0
        };
        while row > 0
            invariant
                0 <= row,
                first <= pourcents.len(),
                pourcents.len() - first == window_len(pourcents.len() as int, self.cols as int),
                drawn == window(pourcents@, self.cols as int),
                text@ + rows_text(drawn, self.cols as int, self.rows as int, row as nat)
                    == chart_text(self@, pourcents@),
            decreases row,
        {
            let ghost before = text@;
            row = row - 1;
            self.push_row(&mut text, pourcents, first, row);
            assert(text@ + rows_text(drawn, self.cols as int, self.rows as int, row as nat)
                =~= before + rows_text(
                drawn,
                self.cols as int,
                self.rows as int,
                (row + 1) as nat,
            ));
        }
        assert(text@ + Seq::<char>::empty() =~= text@);
        text
    }
}

} // verus!

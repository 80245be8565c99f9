//! The inline markup of widget texts: markers of the form
//! `[[EFFECT_NAME]]` that switch a style on or off for the text that
//! follows them.

use crate::text::{chars_of, push_chars, text_of};
use unicode_segmentation::UnicodeSegmentation;
use vstd::prelude::*;

verus! {

/// Whether `pattern` occurs in `text` at index `i`.
pub open spec fn occurs_at(text: Seq<char>, pattern: Seq<char>, i: int) -> bool {
    0 <= i && i + pattern.len() <= text.len() && text.subrange(i, i + pattern.len()) == pattern
}

/// The index of the first occurrence of `pattern` in `text` at or behind
/// `from`.
pub open spec fn find_from(text: Seq<char>, pattern: Seq<char>, from: int) -> Option<int>
    decreases text.len() - from,
{
    if from < 0 || from + pattern.len() > text.len() {
        None
    } else if occurs_at(text, pattern, from) {
        Some(from)
    } else if from + pattern.len() >= text.len() {
        None
    } else {
        find_from(text, pattern, from + 1)
    }
}

/// The pieces of `text` from index `from` on that lie between the
/// occurrences of `pattern`, found from left to right without overlap. A
/// text without an occurrence is one piece; an empty pattern splits
/// nothing.
pub open spec fn split_from(text: Seq<char>, pattern: Seq<char>, from: int) -> Seq<Seq<char>>
    decreases text.len() - from,
{
    match find_from(text, pattern, from) {
        Some(i) => if pattern.len() > 0 && from <= i && i + pattern.len() <= text.len() {
            seq![text.subrange(from, i)] + split_from(text, pattern, i + pattern.len())
        } else {
            seq![text.subrange(from, text.len() as int)]
        },
        None => seq![text.subrange(from, text.len() as int)],
    }
}

/// The pieces of `text` between the occurrences of `pattern`.
pub open spec fn split(text: Seq<char>, pattern: Seq<char>) -> Seq<Seq<char>> {
    split_from(text, pattern, 0)
}

/// The texts of a sequence of character vectors.
pub open spec fn pieces_view(pieces: Seq<Vec<char>>) -> Seq<Seq<char>> {
    pieces.map_values(|piece: Vec<char>| piece@)
}

/// Whether `pattern` occurs in `text` at index `i`.
fn matches_at(text: &Vec<char>, pattern: &Vec<char>, i: usize) -> (found: bool)
    requires
        i + pattern.len() <= text.len(),
    ensures
        found == occurs_at(text@, pattern@, i as int),
{
    let mut k: usize = 0;
    while k < pattern.len()
        invariant
            k <= pattern.len(),
            i + pattern.len() <= text.len(),
            forall|j: int| 0 <= j < k ==> text[i + j] == pattern[j],
        decreases pattern.len() - k,
    {
        if text[i + k] != pattern[k] {
            assert(text@.subrange(i as int, i + pattern.len())[k as int] != pattern[k as int]);
            return false;
        }
        k += 1;
    }
    assert(text@.subrange(i as int, i + pattern.len()) =~= pattern@);
    true
}

/// Finds the first occurrence of `pattern` in `text` at or behind `from`.
pub fn find(text: &Vec<char>, pattern: &Vec<char>, from: usize) -> (found: Option<usize>)
    ensures
        match found {
            Some(i) => find_from(text@, pattern@, from as int) == Some(i as int) && from <= i && i
                + pattern.len() <= text.len(),
            None => find_from(text@, pattern@, from as int) is None,
        },
{
    if pattern.len() > text.len() || from > text.len() - pattern.len() {
        return None;
    }
    let last: usize = text.len() - pattern.len();
    let mut i: usize = from;
    loop
        invariant
            from <= i <= last,
            last == text.len() - pattern.len(),
            find_from(text@, pattern@, from as int) == find_from(text@, pattern@, i as int),
        decreases last - i,
    {
        if matches_at(text, pattern, i) {
            return Some(i);
        }
        if i >= last {
            return None;
        }
        i += 1;
    }
}

/// Copies the characters of `text` from index `from` up to, not
/// including, `to`.
pub fn slice(text: &Vec<char>, from: usize, to: usize) -> (piece: Vec<char>)
    requires
        from <= to <= text.len(),
    ensures
        piece@ == text@.subrange(from as int, to as int),
{
    let mut piece: Vec<char> = Vec::new();
    let mut i: usize = from;
    while i < to
        invariant
            from <= i <= to,
            to <= text.len(),
            piece@ == text@.subrange(from as int, i as int),
        decreases to - i,
    {
        piece.push(text[i]);
        i += 1;
        assert(piece@ =~= text@.subrange(from as int, i as int));
    }
    piece
}

/// Splits `text` at the occurrences of `pattern`.
pub fn split_at(text: &Vec<char>, pattern: &Vec<char>) -> (pieces: Vec<Vec<char>>)
    ensures
        pieces_view(pieces@) == split(text@, pattern@),
        pieces.len() >= 1,
{
    let mut pieces: Vec<Vec<char>> = Vec::new();
    let mut start: usize = 0;
    assert(pieces_view(pieces@) + split_from(text@, pattern@, 0) =~= split(text@, pattern@));
    loop
        invariant
            start <= text.len(),
            pieces_view(pieces@) + split_from(text@, pattern@, start as int) == split(
                text@,
                pattern@,
            ),
        decreases text.len() - start,
    {
        let found = if pattern.len() > 0 {
            find(text, pattern, start)
        } else {
            None
        };
        match found {
            Some(i) => {
                let piece = slice(text, start, i);
                let ghost before = pieces@;
                pieces.push(piece);
                proof {
                    assert(pieces_view(pieces@) =~= pieces_view(before) + seq![
                        text@.subrange(start as int, i as int),
                    ]);
                    assert(pieces_view(pieces@) + split_from(text@, pattern@, i + pattern.len())
                        =~= pieces_view(before) + split_from(text@, pattern@, start as int));
                }
                start = i + pattern.len();
            },
            None => {
                let piece = slice(text, start, text.len());
                let ghost before = pieces@;
                pieces.push(piece);
                proof {
                    assert(pieces_view(pieces@) =~= pieces_view(before) + seq![
                        text@.subrange(start as int, text.len() as int),
                    ]);
                }
                return pieces;
            },
        }
    }
}

/// What opens a marker.
pub open spec fn opening() -> Seq<char> {
    seq!['[', '[', 'E', 'F', 'F', 'E', 'C', 'T', '_']
}

/// What closes a marker.
pub open spec fn closing() -> Seq<char> {
    seq![']', ']']
}

/// The line feed as a text.
pub open spec fn line_feed() -> Seq<char> {
    seq!['\n']
}

/// A stretch of text and the name of the marker that stands before it, if
/// one does.
pub struct Span {
    pub effect: Option<String>,
    pub text: String,
}

/// What a span is, mathematically.
pub struct SpanView {
    pub effect: Option<Seq<char>>,
    pub text: Seq<char>,
}

impl View for Span {
    type V = SpanView;

    open spec fn view(&self) -> SpanView {
        SpanView {
            effect: match self.effect {
                Some(name) => Some(name@),
                None => None,
            },
            text: self.text@,
        }
    }
}

/// The span that a piece between two openings makes: up to the first
/// closing it is the name of a marker, behind it text. A piece without a
/// closing is text altogether.
pub open spec fn span_of(piece: Seq<char>) -> SpanView {
    match find_from(piece, closing(), 0) {
        Some(end) => SpanView {
            effect: Some(piece.subrange(0, end)),
            text: piece.subrange(end + 2, piece.len() as int),
        },
        None => SpanView { effect: None, text: piece },
    }
}

/// The spans of a text: one for each piece between the openings of
/// markers.
pub open spec fn spans_of(text: Seq<char>) -> Seq<SpanView> {
    split(text, opening()).map_values(|piece: Seq<char>| span_of(piece))
}

/// The spans that the items of a vector stand for.
pub open spec fn span_views(spans: Seq<Span>) -> Seq<SpanView> {
    spans.map_values(|span: Span| span@)
}

/// The texts of the spans, one behind the other.
pub open spec fn plain_text(spans: Seq<SpanView>) -> Seq<char>
    decreases spans.len(),
{
    if spans.len() == 0 {
        Seq::empty()
    } else {
        plain_text(spans.drop_last()) + spans.last().text
    }
}

/// The text without its markers: what is shown of it.
pub open spec fn stripped(text: Seq<char>) -> Seq<char> {
    plain_text(spans_of(text))
}

/// The extended grapheme clusters of a text in order, as the Unicode text
/// segmentation rules delimit them: what a reader takes for its characters.
pub uninterp spec fn grapheme_clusters(text: Seq<char>) -> Seq<Seq<char>>;

/// `UnicodeSegmentation::graphemes` with `is_extended` set iterates over
/// the extended grapheme clusters of the text; the wrapper hands them out
/// as strings. They depend on the characters of the text alone.
#[verifier::external_body]
fn clusters_of(text: &str) -> (clusters: Vec<String>)
    ensures
        clusters@.map_values(|cluster: String| cluster@) == grapheme_clusters(text@),
{
    UnicodeSegmentation::graphemes(text, true).map(|cluster| cluster.to_string()).collect()
}

/// The number of grapheme clusters of a text: its width on the screen,
/// as far as each cluster takes one column.
pub open spec fn grapheme_count(text: Seq<char>) -> nat {
    grapheme_clusters(text).len()
}

/// Line `i` of the lines `raw`; empty where there is no such line.
pub open spec fn raw_line(raw: Seq<Seq<char>>, i: int) -> Seq<char> {
    if 0 <= i < raw.len() {
        raw[i]
    } else {
        Seq::empty()
    }
}

/// The first `upto` of the lines `raw` put together for a window `width`
/// characters wide with a frame that takes four of them: behind each line
/// stands a line feed, but for a line whose shown text has exactly
/// `width - 4` characters by `counts`, which fills its row and lets the
/// terminal move on by itself.
pub open spec fn joined(raw: Seq<Seq<char>>, counts: Seq<nat>, width: int, upto: int) -> Seq<char>
    decreases upto,
{
    if upto <= 0 {
        Seq::empty()
    } else {
        joined(raw, counts, width, upto - 1) + raw_line(raw, upto - 1) + if counts[upto - 1]
            == width - 4 {
            Seq::empty()
        } else {
            line_feed()
        }
    }
}

/// The numbers of grapheme clusters of the lines.
pub open spec fn grapheme_counts(shown: Seq<Seq<char>>) -> Seq<nat> {
    Seq::new(shown.len(), |i: int| grapheme_count(shown[i]))
}

/// The counts as natural numbers.
pub open spec fn naturals(counts: Seq<usize>) -> Seq<nat> {
    counts.map_values(|count: usize| count as nat)
}

/// The text of `content` laid out for a window `width` characters wide:
/// its lines, markers and all, each followed by a line feed unless what is
/// shown of the line fills the row. There are as many lines as the shown
/// text has.
pub open spec fn fitted(content: Seq<char>, width: int) -> Seq<char> {
    let shown = split(stripped(content), line_feed());
    joined(split(content, line_feed()), grapheme_counts(shown), width, shown.len() as int)
}

/// The marker opening as characters.
fn opening_chars() -> (chars: Vec<char>)
    ensures
        chars@ == opening(),
{
    let mut chars: Vec<char> = Vec::new();
    chars.push('[');
    chars.push('[');
    chars.push('E');
    chars.push('F');
    chars.push('F');
    chars.push('E');
    chars.push('C');
    chars.push('T');
    chars.push('_');
    assert(chars@ =~= opening());
    chars
}

/// The marker closing as characters.
fn closing_chars() -> (chars: Vec<char>)
    ensures
        chars@ == closing(),
{
    let mut chars: Vec<char> = Vec::new();
    chars.push(']');
    chars.push(']');
    assert(chars@ =~= closing());
    chars
}

/// The line feed as characters.
fn line_feed_chars() -> (chars: Vec<char>)
    ensures
        chars@ == line_feed(),
{
    let mut chars: Vec<char> = Vec::new();
    chars.push('\n');
    assert(chars@ =~= line_feed());
    chars
}

/// The span that a piece between two openings makes.
fn span_from(piece: &Vec<char>) -> (span: Span)
    ensures
        span@ == span_of(piece@),
{
    let closing = closing_chars();
    match find(piece, &closing, 0) {
        Some(end) => Span {
            effect: Some(text_of(&slice(piece, 0, end))),
            text: text_of(&slice(piece, end + 2, piece.len())),
        },
        None => {
            assert(piece@.subrange(0, piece.len() as int) =~= piece@);
            Span { effect: None, text: text_of(piece) }
        },
    }
}

/// Splits a text into its spans.
pub fn spans(text: &str) -> (spans: Vec<Span>)
    ensures
        span_views(spans@) == spans_of(text@),
{
    let pieces = split_at(&chars_of(text), &opening_chars());
    let mut spans: Vec<Span> = Vec::new();
    let mut i: usize = 0;
    while i < pieces.len()
        invariant
            i <= pieces.len(),
            pieces_view(pieces@) == split(text@, opening()),
            span_views(spans@) == spans_of(text@).take(i as int),
        decreases pieces.len() - i,
    {
        let span = span_from(&pieces[i]);
        let ghost before = spans@;
        spans.push(span);
        proof {
            assert(pieces_view(pieces@)[i as int] == pieces[i as int]@);
            assert(spans_of(text@)[i as int] == span_of(pieces[i as int]@));
            assert(span_views(spans@) =~= span_views(before).push(span@));
            assert(spans_of(text@).take(i + 1) =~= spans_of(text@).take(i as int).push(
                spans_of(text@)[i as int],
            ));
        }
        i += 1;
    }
    assert(spans_of(text@).take(pieces.len() as int) =~= spans_of(text@));
    spans
}

/// The text without its markers.
pub fn strip(text: &str) -> (shown: String)
    ensures
        shown@ == stripped(text@),
{
    let spans = spans(text);
    let mut shown = String::new();
    let mut i: usize = 0;
    while i < spans.len()
        invariant
            i <= spans.len(),
            shown@ == plain_text(span_views(spans@).take(i as int)),
        decreases spans.len() - i,
    {
        let ghost before = shown@;
        push_chars(&mut shown, &chars_of(spans[i].text.as_str()));
        proof {
            let views = span_views(spans@);
            assert(views.take(i + 1).drop_last() =~= views.take(i as int));
            assert(views.take(i + 1).last() == spans[i as int]@);
        }
        i += 1;
    }
    assert(span_views(spans@).take(spans.len() as int) =~= span_views(spans@));
    shown
}

/// Puts lines together for a window `width` characters wide: one for
/// each of `counts`, the number of grapheme clusters that its shown text
/// has.
pub fn join_lines(raw: &Vec<Vec<char>>, counts: &Vec<usize>, width: i32) -> (text: String)
    ensures
        text@ == joined(pieces_view(raw@), naturals(counts@), width as int, counts.len() as int),
{
    let mut text = String::new();
    let mut i: usize = 0;
    while i < counts.len()
        invariant
            i <= counts.len(),
            text@ == joined(pieces_view(raw@), naturals(counts@), width as int, i as int),
        decreases counts.len() - i,
    {
        let ghost before = text@;
        if i < raw.len() {
            push_chars(&mut text, &raw[i]);
        }
        assert(text@ =~= before + raw_line(pieces_view(raw@), i as int));
        if counts[i] as i128 != width as i128 - 4 {
            text.push('\n');
        }
        i += 1;
        assert(naturals(counts@)[i - 1] == counts[i - 1]);
        assert(text@ =~= joined(pieces_view(raw@), naturals(counts@), width as int, i as int));
    }
    text
}

/// Lays the text of a widget out for a window `width` characters wide.
pub fn fit_lines(content: &str, width: i32) -> (text: String)
    ensures
        text@ == fitted(content@, width as int),
{
    let feed = line_feed_chars();
    let shown = split_at(&chars_of(strip(content).as_str()), &feed);
    let raw = split_at(&chars_of(content), &feed);
    let mut counts: Vec<usize> = Vec::new();
    let mut i: usize = 0;
    while i < shown.len()
        invariant
            i <= shown.len(),
            counts.len() == i,
            forall|j: int|
                0 <= j < i ==> (#[trigger] counts[j]) as nat == grapheme_count(shown[j]@),
        decreases shown.len() - i,
    {
        let clusters = clusters_of(text_of(&shown[i]).as_str());
        counts.push(clusters.len());
        i += 1;
    }
    proof {
        let lines = pieces_view(shown@);
        assert forall|j: int| 0 <= j < lines.len() implies naturals(counts@)[j]
            == grapheme_counts(lines)[j] by {
            assert(lines[j] == shown[j]@);
            assert(naturals(counts@)[j] == counts[j] as nat);
        }
        assert(naturals(counts@) =~= grapheme_counts(lines));
    }
    join_lines(&raw, &counts, width)
}

} // verus!

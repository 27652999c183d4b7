//! The glyphs that draw sampled signals: two rows for a single bit, three
//! rows for a vector with its value written in the middle one.

use vstd::prelude::*;
use vstd::string::StrSliceExecFns;
use vstd::string::StringExecFns;
use crate::signal::{
    cells_of, is_vector_cell, lemma_cells_of_one_kind, of_one_kind, sampled, Cell, DisplayEvent,
    Reading, Timeline, ValueDisplayEvent, VectorDisplayEvent,
};
use crate::value::{
    has_x_or_z, value_char, value_to_string, vector_chars, vector_contain_x_or_z,
    vector_to_string, Value,
};

verus! {

/// The colour class of a glyph.
#[derive(Clone, Copy, Debug, PartialEq, Eq, Structural)]
pub enum Tone {
    /// The terminal's own colour.
    Plain,
    /// The colour of ordinary text.
    Text,
    /// A known value.
    Green,
    /// A vector with unknown or floating bits.
    Red,
}

/// One character of a drawn row with its colour class.
#[derive(Clone, Copy, Debug, PartialEq, Eq, Structural)]
pub struct Glyph {
    pub symbol: char,
    pub tone: Tone,
}

/// The two symbols, one above the other, that draw an edge of a
/// single-bit signal.
#[derive(Clone, Copy, Debug, PartialEq, Eq, Structural)]
pub struct EdgeRepresentation {
    pub first_line: char,
    pub second_line: char,
}

/// The symbols of the change from low to high.
pub open spec fn rising() -> EdgeRepresentation {
    EdgeRepresentation { first_line: '┌', second_line: '┘' }
}

/// The symbols of the change from high to low.
pub open spec fn falling() -> EdgeRepresentation {
    EdgeRepresentation { first_line: '┐', second_line: '└' }
}

/// The change from low to high:
/// ```text
///       ┌
///       ┘
/// ```
#[verifier::when_used_as_spec(rising)]
pub fn rising_edge() -> (edge: EdgeRepresentation)
    ensures
        edge == rising(),
{
    EdgeRepresentation { first_line: '┌', second_line: '┘' }
}

/// The change from high to low:
/// ```text
///       ┐
///       └
/// ```
#[verifier::when_used_as_spec(falling)]
pub fn falling_edge() -> (edge: EdgeRepresentation)
    ensures
        edge == falling(),
{
    EdgeRepresentation { first_line: '┐', second_line: '└' }
}

/// The glyph shown where a text does not fit and where several changes
/// fall into one cell.
pub const PLACEHOLDER: char = '␩';

/// The symbol of a cell in one row of the band. A single-bit cell has rows
/// 0 and 1, a vector cell rows 0, 1 and 2.
pub open spec fn cell_symbol(cell: Cell, row: int) -> char {
    match cell {
        Cell::Change(Reading::Bit(Value::V0)) => if row == 0 {
            falling_edge().first_line
        } else {
            falling_edge().second_line
        },
        Cell::Change(Reading::Bit(Value::V1)) => if row == 0 {
            rising_edge().first_line
        } else {
            rising_edge().second_line
        },
        Cell::Stay(Reading::Bit(Value::V0)) => if row == 0 {
            ' '
        } else {
            '─'
        },
        Cell::Stay(Reading::Bit(Value::V1)) => if row == 0 {
            '─'
        } else {
            ' '
        },
        Cell::Change(Reading::Bit(Value::X)) | Cell::Stay(Reading::Bit(Value::X)) => 'x',
        Cell::Change(Reading::Bit(Value::Z)) | Cell::Stay(Reading::Bit(Value::Z)) => 'z',
        Cell::Change(Reading::Bits(_)) => if row == 0 {
            '┬'
        } else if row == 1 {
            '│'
        } else {
            '┴'
        },
        Cell::Stay(Reading::Bits(_)) => if row == 1 {
            ' '
        } else {
            '─'
        },
        Cell::Multiple { .. } => PLACEHOLDER,
    }
}

/// The colour class of a cell: red for a steady vector with unknown or
/// floating bits, green for all else.
pub open spec fn cell_tone(cell: Cell) -> Tone {
    match cell {
        Cell::Stay(Reading::Bits(bits)) => if has_x_or_z(bits) {
            Tone::Red
        } else {
            Tone::Green
        },
        _ => Tone::Green,
    }
}

/// The glyph of a cell in one row of the band.
pub open spec fn cell_glyph(cell: Cell, row: int) -> Glyph {
    Glyph { symbol: cell_symbol(cell, row), tone: cell_tone(cell) }
}

/// A text centred in a run of `length` cells, in plain glyphs: blanks
/// around the text, or the placeholder in every cell when the text is
/// longer than the run.
pub open spec fn centred(length: nat, letters: Seq<char>) -> Seq<Glyph> {
    Seq::new(length, |i: int| centred_glyph(length, letters, i))
}

/// The glyph at index `i` of a centred text.
pub open spec fn centred_glyph(length: nat, letters: Seq<char>, i: int) -> Glyph {
    let offset = length / 2 - letters.len() / 2;
    if letters.len() > length {
        Glyph { symbol: PLACEHOLDER, tone: Tone::Plain }
    } else if offset <= i < offset + letters.len() {
        Glyph { symbol: letters[i - offset], tone: Tone::Plain }
    } else {
        Glyph { symbol: ' ', tone: Tone::Plain }
    }
}

/// Centres a text in a run of `length` cells.
pub fn middle_str(length: usize, mid_str: &str) -> (run: Vec<Glyph>)
    ensures
        run@ == centred(length as nat, mid_str@),
{
    let len = mid_str.unicode_len();
    let ghost text = mid_str@;
    let mut run: Vec<Glyph> = Vec::new();
    let mut i: usize = 0;
    while i < length
        invariant
            i <= length,
            len == text.len(),
            text == mid_str@,
            run@ == centred(length as nat, text).take(i as int),
        decreases length - i,
    {
        let glyph = if len > length {
            Glyph { symbol: PLACEHOLDER, tone: Tone::Plain }
        } else {
            let offset = length / 2 - len / 2;
            if offset <= i && i - offset < len {
                Glyph { symbol: mid_str.get_char(i - offset), tone: Tone::Plain }
            } else {
                Glyph { symbol: ' ', tone: Tone::Plain }
            }
        };
        run.push(glyph);
        assert(run@ =~= centred(length as nat, text).take(i + 1));
        i += 1;
    }
    assert(centred(length as nat, text).take(i as int) =~= centred(length as nat, text));
    run
}

/// The number of rows of the band of a signal: two when its first cell is
/// of a single bit, three when it is of a vector, none without cells.
pub open spec fn band_rows(cells: Seq<Cell>) -> nat {
    if cells.len() == 0 {
        0
    } else if is_vector_cell(cells[0]) {
        3
    } else {
        2
    }
}

/// True when the cells can be drawn as one band: a band of three rows
/// holds vector cells only.
pub open spec fn drawable(cells: Seq<Cell>) -> bool {
    band_rows(cells) == 3 ==> forall|i: int| 0 <= i < cells.len() ==> is_vector_cell(#[trigger] cells[i])
}

/// The cells of a signal whose events are all of its declared kind can be
/// drawn.
pub proof fn lemma_one_kind_is_drawable(
    events: Timeline,
    blank: Reading,
    start: int,
    width: int,
    count: nat,
)
    requires
        of_one_kind(events, blank),
    ensures
        drawable(sampled(events, blank, start, width, count)),
{
    let cells = sampled(events, blank, start, width, count);
    assert forall|i: int| 0 <= i < cells.len() implies is_vector_cell(#[trigger] cells[i]) == (
    blank is Bits) by {
        lemma_cells_of_one_kind(events, blank, start, width, i as nat);
    }
    if count > 0 {
        assert(is_vector_cell(cells[0]) == (blank is Bits));
    }
}

/// True of the vector cells that show a value: steady or just changed.
pub open spec fn shows_bits(cell: Cell) -> bool {
    cell is Stay && cell->Stay_0 is Bits || cell is Change && cell->Change_0 is Bits
}

/// The bits that a vector cell shows.
pub open spec fn cell_bits(cell: Cell) -> Seq<Value> {
    match cell {
        Cell::Stay(Reading::Bits(bits)) => bits,
        Cell::Change(Reading::Bits(bits)) => bits,
        _ => Seq::empty(),
    }
}

/// True when no cell before index `i` shows the bits of a vector.
pub open spec fn none_before(cells: Seq<Cell>, i: int) -> bool {
    forall|j: int| 0 <= j < i && j < cells.len() ==> !shows_bits(#[trigger] cells[j])
}

/// True of the cells at which a run of one unbroken vector value starts:
/// each change of a vector, and the first cell that shows a vector at all.
pub open spec fn is_anchor(cells: Seq<Cell>, i: int) -> bool {
    &&& 0 <= i < cells.len()
    &&& shows_bits(cells[i])
    &&& cells[i] is Change || none_before(cells, i)
}

/// The last anchor at or before index `i`; -1 when there is none.
pub open spec fn anchor_before(cells: Seq<Cell>, i: int) -> int
    decreases i + 1,
{
    if i < 0 {
        -1
    } else if is_anchor(cells, i) {
        i
    } else {
        anchor_before(cells, i - 1)
    }
}

/// The first anchor at or after index `i`; the number of cells when there
/// is none.
pub open spec fn anchor_from(cells: Seq<Cell>, i: int) -> int
    decreases cells.len() - i,
{
    if i >= cells.len() {
        cells.len() as int
    } else if is_anchor(cells, i) {
        i
    } else {
        anchor_from(cells, i + 1)
    }
}

/// The glyph of cell `i` in the middle row. An anchor and the cells before
/// the first anchor keep their own glyph. The cells after an anchor, up to
/// the next anchor or the end, hold the anchor's bits as text, centred in
/// that run.
pub open spec fn middle_glyph(cells: Seq<Cell>, i: int) -> Glyph {
    let anchor = anchor_before(cells, i);
    let end = anchor_from(cells, anchor + 1);
    if anchor < 0 || anchor == i {
        cell_glyph(cells[i], 1)
    } else {
        centred_glyph(
            (end - anchor - 1) as nat,
            vector_chars(cell_bits(cells[anchor])),
            i - anchor - 1,
        )
    }
}

/// The glyph of cell `i` in a row of the band.
pub open spec fn band_glyph(cells: Seq<Cell>, row: int, i: int) -> Glyph {
    if row == 1 {
        middle_glyph(cells, i)
    } else {
        cell_glyph(cells[i], row)
    }
}

/// One row of the band.
pub open spec fn band_row(cells: Seq<Cell>, row: int) -> Seq<Glyph> {
    Seq::new(cells.len(), |i: int| band_glyph(cells, row, i))
}

/// The band of a signal: its rows from the top.
pub open spec fn band(cells: Seq<Cell>) -> Seq<Seq<Glyph>> {
    Seq::new(band_rows(cells), |row: int| band_row(cells, row))
}

/// The contents of a list of rows.
pub open spec fn rows_of(rows: Seq<Vec<Glyph>>) -> Seq<Seq<Glyph>> {
    Seq::new(rows.len(), |row: int| rows[row]@)
}

/// Without a cell that shows bits at or before `i`, there is no anchor at
/// or before `i`.
pub proof fn lemma_no_anchor_yet(cells: Seq<Cell>, i: int)
    requires
        none_before(cells, i + 1),
    ensures
        anchor_before(cells, i) == -1,
    decreases i + 1,
{
    if i >= 0 {
        if i < cells.len() {
            assert(!shows_bits(cells[i]));
        }
        lemma_no_anchor_yet(cells, i - 1);
    }
}

/// After an anchor, and before the next one, the last anchor is that
/// anchor.
pub proof fn lemma_anchor_holds(cells: Seq<Cell>, anchor: int, i: int)
    requires
        is_anchor(cells, anchor),
        anchor <= i,
        forall|j: int| anchor < j <= i ==> !is_anchor(cells, j),
    ensures
        anchor_before(cells, i) == anchor,
    decreases i - anchor,
{
    if i > anchor {
        lemma_anchor_holds(cells, anchor, i - 1);
    }
}

/// Where no anchor lies from `from` up to `end`, and `end` is an anchor or
/// the end of the cells, the first anchor from `from` on is `end`.
pub proof fn lemma_anchor_ahead(cells: Seq<Cell>, from: int, end: int)
    requires
        0 <= from <= end <= cells.len(),
        forall|j: int| from <= j < end ==> !is_anchor(cells, j),
        end == cells.len() || is_anchor(cells, end),
    ensures
        anchor_from(cells, from) == end,
    decreases end - from,
{
    if from < end {
        lemma_anchor_ahead(cells, from + 1, end);
    }
}

/// Writes a centred text over the cells from `from` up to `to` of a row.
fn fill(row: &mut Vec<Glyph>, from: usize, to: usize, text: &str)
    requires
        from <= to <= old(row).len(),
    ensures
        final(row).len() == old(row).len(),
        forall|j: int|
            0 <= j < old(row).len() ==> #[trigger] final(row)@[j] == if from <= j < to {
                centred_glyph((to - from) as nat, text@, j - from)
            } else {
                old(row)@[j]
            },
{
    let run = middle_str(to - from, text);
    let mut k: usize = 0;
    while k < to - from
        invariant
            from <= to <= row.len(),
            k <= to - from,
            row.len() == old(row).len(),
            run@ == centred((to - from) as nat, text@),
            forall|j: int|
                0 <= j < row.len() ==> #[trigger] row@[j] == if from <= j < from + k {
                    centred_glyph((to - from) as nat, text@, j - from)
                } else {
                    old(row)@[j]
                },
        decreases to - from - k,
    {
        row.set(from + k, run[k]);
        k += 1;
    }
}

/// The text of the bits that a vector cell shows.
fn bits_text(cell: &DisplayEvent) -> (text: String)
    ensures
        text@ == vector_chars(cell_bits(cell@)),
{
    match cell {
        DisplayEvent::Vector(VectorDisplayEvent::ChangeEvent(bits)) => vector_to_string(bits),
        DisplayEvent::Vector(VectorDisplayEvent::Stay(bits)) => vector_to_string(bits),
        _ => {
            let text = String::new();
            assert(text@ =~= vector_chars(Seq::empty()));
            text
        },
    }
}

/// The glyphs of one cell in the three rows, the last of them only for a
/// vector cell, and whether the cell is of a vector.
fn cell_glyphs(cell: &DisplayEvent) -> (out: (Glyph, Glyph, Glyph, bool))
    ensures
        out.0 == cell_glyph(cell@, 0),
        out.1 == cell_glyph(cell@, 1),
        out.3 ==> out.2 == cell_glyph(cell@, 2),
        out.3 == is_vector_cell(cell@),
{
    let green = Tone::Green;
    match cell {
        DisplayEvent::Value(event) => {
            let (top, bottom): (char, char) = match event {
                ValueDisplayEvent::ChangeEvent(Value::V0) => (
                    falling_edge().first_line,
                    falling_edge().second_line,
                ),
                ValueDisplayEvent::ChangeEvent(Value::V1) => (
                    rising_edge().first_line,
                    rising_edge().second_line,
                ),
                ValueDisplayEvent::Stay(Value::V0) => (' ', '─'),
                ValueDisplayEvent::Stay(Value::V1) => ('─', ' '),
                ValueDisplayEvent::ChangeEvent(Value::X) | ValueDisplayEvent::Stay(Value::X) => (
                    'x',
                    'x',
                ),
                ValueDisplayEvent::ChangeEvent(Value::Z) | ValueDisplayEvent::Stay(Value::Z) => (
                    'z',
                    'z',
                ),
                ValueDisplayEvent::MultipleEvent => (PLACEHOLDER, PLACEHOLDER),
            };
            (
                Glyph { symbol: top, tone: green },
                Glyph { symbol: bottom, tone: green },
                Glyph { symbol: bottom, tone: green },
                false,
            )
        },
        DisplayEvent::Vector(event) => {
            let (top, middle, bottom, tone): (char, char, char, Tone) = match event {
                VectorDisplayEvent::ChangeEvent(_) => ('┬', '│', '┴', green),
                VectorDisplayEvent::Stay(bits) => {
                    let tone = if vector_contain_x_or_z(bits) {
                        Tone::Red
                    } else {
                        green
                    };
                    ('─', ' ', '─', tone)
                },
                VectorDisplayEvent::MultipleEvent => (PLACEHOLDER, PLACEHOLDER, PLACEHOLDER, green),
            };
            (
                Glyph { symbol: top, tone },
                Glyph { symbol: middle, tone },
                Glyph { symbol: bottom, tone },
                true,
            )
        },
    }
}

/// The middle row of a band, given the row of the cells' own glyphs: the
/// bits of each anchor are written, centred, over the cells that follow it.
fn write_values(cells: &Vec<DisplayEvent>, row: &mut Vec<Glyph>)
    requires
        old(row).len() == cells.len(),
        forall|j: int|
            0 <= j < cells.len() ==> #[trigger] old(row)@[j] == cell_glyph(cells@[j]@, 1),
    ensures
        final(row)@ == band_row(cells_of(cells@), 1),
{
    let ghost shown = cells_of(cells@);
    let n = cells.len();
    let mut anchor: Option<usize> = None;
    let mut i: usize = 0;
    while i < n
        invariant
            i <= n,
            n == cells.len(),
            row.len() == n,
            shown == cells_of(cells@),
            anchor is None <==> none_before(shown, i as int),
            anchor matches Some(a) ==> a < i && is_anchor(shown, a as int) && forall|j: int|
                a < j < i ==> !is_anchor(shown, j),
            forall|j: int|
                0 <= j < n ==> #[trigger] row@[j] == if j < (match anchor {
                    Some(a) => a + 1,
                    None => i as int,
                }) {
                    middle_glyph(shown, j)
                } else {
                    cell_glyph(shown[j], 1)
                },
        decreases n - i,
    {
        let ghost before = row@;
        assert(shown[i as int] == cells@[i as int]@);
        let starts = match &cells[i] {
            DisplayEvent::Vector(VectorDisplayEvent::ChangeEvent(_)) => true,
            DisplayEvent::Vector(VectorDisplayEvent::Stay(_)) => anchor.is_none(),
            _ => false,
        };
        assert(starts == is_anchor(shown, i as int)) by {
            if anchor is Some {
                assert(shows_bits(shown[anchor->Some_0 as int]));
            }
        }
        if starts {
            match anchor {
                Some(a) => {
                    let text = bits_text(&cells[a]);
                    fill(row, a + 1, i, text.as_str());
                    proof {
                        lemma_anchor_ahead(shown, a + 1, i as int);
                        assert forall|j: int| a < j < i implies #[trigger] row@[j] == middle_glyph(
                            shown,
                            j,
                        ) by {
                            lemma_anchor_holds(shown, a as int, j);
                        }
                    }
                },
                None => {},
            }
            anchor = Some(i);
        } else {
            proof {
                if anchor is None {
                    assert(!shows_bits(shown[i as int]));
                    lemma_no_anchor_yet(shown, i as int);
                }
            }
        }
        i += 1;
    }
    match anchor {
        Some(a) => {
            let text = bits_text(&cells[a]);
            fill(row, a + 1, n, text.as_str());
            proof {
                lemma_anchor_ahead(shown, a + 1, n as int);
                assert forall|j: int| a < j < n implies #[trigger] row@[j] == middle_glyph(
                    shown,
                    j,
                ) by {
                    lemma_anchor_holds(shown, a as int, j);
                }
            }
        },
        None => {},
    }
    assert(row@ =~= band_row(shown, 1));
}

/// Draws sampled cells as a band of glyph rows: two rows when the first
/// cell is of a single bit, three when it is of a vector, with the vector's
/// bits written in the middle row over each run of one unbroken value.
///
/// `None` when a cell of a single bit stands in a band of three rows.
pub fn lines_from_cells(cells: &Vec<DisplayEvent>) -> (lines: Option<Vec<Vec<Glyph>>>)
    ensures
        lines is Some <==> drawable(cells_of(cells@)),
        lines matches Some(rows) ==> rows_of(rows@) == band(cells_of(cells@)),
{
    let ghost shown = cells_of(cells@);
    let n = cells.len();
    let mut rows: Vec<Vec<Glyph>> = Vec::new();
    if n == 0 {
        assert(rows_of(rows@) =~= band(shown));
        return Some(rows);
    }
    let three = match &cells[0] {
        DisplayEvent::Vector(_) => true,
        DisplayEvent::Value(_) => false,
    };
    assert(shown[0] == cells@[0]@);
    let mut top: Vec<Glyph> = Vec::new();
    let mut middle: Vec<Glyph> = Vec::new();
    let mut bottom: Vec<Glyph> = Vec::new();
    let mut i: usize = 0;
    while i < n
        invariant
            i <= n,
            n == cells.len(),
            shown == cells_of(cells@),
            three == (band_rows(shown) == 3),
            top.len() == i,
            middle.len() == i,
            three ==> bottom.len() == i,
            three ==> forall|j: int| 0 <= j < i ==> is_vector_cell(#[trigger] shown[j]),
            forall|j: int| 0 <= j < i ==> #[trigger] top@[j] == cell_glyph(shown[j], 0),
            forall|j: int| 0 <= j < i ==> #[trigger] middle@[j] == cell_glyph(shown[j], 1),
            three ==> forall|j: int| 0 <= j < i ==> #[trigger] bottom@[j] == cell_glyph(shown[j], 2),
        decreases n - i,
    {
        assert(shown[i as int] == cells@[i as int]@);
        let (first, second, third, vector) = cell_glyphs(&cells[i]);
        if three && !vector {
            return None;
        }
        top.push(first);
        middle.push(second);
        if three {
            bottom.push(third);
        }
        i += 1;
    }
    write_values(cells, &mut middle);
    assert(top@ =~= band_row(shown, 0));
    rows.push(top);
    rows.push(middle);
    if three {
        assert(bottom@ =~= band_row(shown, 2));
        rows.push(bottom);
    }
    assert(rows_of(rows@) =~= band(shown));
    Some(rows)
}

/// The text of one cell in the line of values: the value that the cell
/// shows, or `T` for several changes.
pub open spec fn cell_text(cell: Cell) -> Seq<char> {
    match cell {
        Cell::Stay(Reading::Bit(v)) | Cell::Change(Reading::Bit(v)) => seq![value_char(v)],
        Cell::Stay(Reading::Bits(bits)) | Cell::Change(Reading::Bits(bits)) => vector_chars(bits),
        Cell::Multiple { .. } => seq!['T'],
    }
}

/// The texts of the first `n` cells, one after the other.
pub open spec fn cells_text(cells: Seq<Cell>, n: int) -> Seq<char>
    decreases n,
{
    if 0 < n <= cells.len() {
        cells_text(cells, n - 1) + cell_text(cells[n - 1])
    } else {
        Seq::empty()
    }
}

/// The line of values of sampled cells: the text of each cell in turn.
pub fn value_string(cells: &Vec<DisplayEvent>) -> (text: String)
    ensures
        text@ == cells_text(cells_of(cells@), cells@.len() as int),
{
    let ghost shown = cells_of(cells@);
    let mut text = String::new();
    let mut i: usize = 0;
    while i < cells.len()
        invariant
            i <= cells.len(),
            shown == cells_of(cells@),
            text@ == cells_text(shown, i as int),
        decreases cells.len() - i,
    {
        proof {
            reveal_strlit("T");
        }
        assert(shown[i as int] == cells@[i as int]@);
        let ghost before = text@;
        match &cells[i] {
            DisplayEvent::Value(ValueDisplayEvent::ChangeEvent(v)) => {
                let one = value_to_string(*v);
                text.append(one.as_str());
            },
            DisplayEvent::Value(ValueDisplayEvent::Stay(v)) => {
                let one = value_to_string(*v);
                text.append(one.as_str());
            },
            DisplayEvent::Vector(VectorDisplayEvent::ChangeEvent(bits)) => {
                let all = vector_to_string(bits);
                text.append(all.as_str());
            },
            DisplayEvent::Vector(VectorDisplayEvent::Stay(bits)) => {
                let all = vector_to_string(bits);
                text.append(all.as_str());
            },
            _ => {
                text.append("T");
            },
        }
        assert(text@ =~= before + cell_text(shown[i as int]));
        i += 1;
    }
    text
}

} // verus!

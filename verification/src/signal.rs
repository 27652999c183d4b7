//! Signal timelines and their sampling into display cells.

use vstd::prelude::*;
use vstd::string::StringExecFns;
use crate::text::{
    event_debug, events_between, events_debug, events_listed, join_path, joined, path_separator,
    push_event_debug,
};
use crate::value::Value;

verus! {

/// What a signal holds at one moment.
/// - `Value`: the signal has only one bit
/// - `Vector`: the signal has multiple bits
#[derive(Clone, Debug, PartialEq, Eq)]
pub enum ValueType {
    Value(Value),
    Vector(Vec<Value>),
}

/// The mathematical content of a [`ValueType`].
pub enum Reading {
    Bit(Value),
    Bits(Seq<Value>),
}

impl View for ValueType {
    type V = Reading;

    open spec fn view(&self) -> Reading {
        match self {
            ValueType::Value(v) => Reading::Bit(*v),
            ValueType::Vector(bits) => Reading::Bits(bits@),
        }
    }
}

/// What one cell of a sampled single-bit signal shows.
#[derive(Clone, Copy, Debug, PartialEq, Eq)]
pub enum ValueDisplayEvent {
    ChangeEvent(Value),
    MultipleEvent,
    Stay(Value),
}

/// What one cell of a sampled vector signal shows.
#[derive(Clone, Debug, PartialEq, Eq)]
pub enum VectorDisplayEvent {
    ChangeEvent(Vec<Value>),
    MultipleEvent,
    Stay(Vec<Value>),
}

/// One cell of a sampled signal.
#[derive(Clone, Debug, PartialEq, Eq)]
pub enum DisplayEvent {
    Value(ValueDisplayEvent),
    Vector(VectorDisplayEvent),
}

/// The mathematical content of a [`DisplayEvent`].
pub enum Cell {
    /// No change in the cell: the value that is in effect.
    Stay(Reading),
    /// Exactly one change in the cell, to a value other than the one before.
    Change(Reading),
    /// Several changes in the cell; `vector` tells the kind of the signal.
    Multiple { vector: bool },
}

impl View for DisplayEvent {
    type V = Cell;

    open spec fn view(&self) -> Cell {
        match self {
            DisplayEvent::Value(ValueDisplayEvent::ChangeEvent(v)) => Cell::Change(Reading::Bit(*v)),
            DisplayEvent::Value(ValueDisplayEvent::Stay(v)) => Cell::Stay(Reading::Bit(*v)),
            DisplayEvent::Value(ValueDisplayEvent::MultipleEvent) => Cell::Multiple { vector: false },
            DisplayEvent::Vector(VectorDisplayEvent::ChangeEvent(bits)) => Cell::Change(
                Reading::Bits(bits@),
            ),
            DisplayEvent::Vector(VectorDisplayEvent::Stay(bits)) => Cell::Stay(Reading::Bits(bits@)),
            DisplayEvent::Vector(VectorDisplayEvent::MultipleEvent) => Cell::Multiple { vector: true },
        }
    }
}

/// A copy of a bit vector.
pub fn copy_bits(bits: &Vec<Value>) -> (out: Vec<Value>)
    ensures
        out@ == bits@,
{
    let mut out: Vec<Value> = Vec::new();
    let mut i: usize = 0;
    while i < bits.len()
        invariant
            i <= bits.len(),
            out@ == bits@.take(i as int),
        decreases bits.len() - i,
    {
        out.push(bits[i]);
        assert(out@ =~= bits@.take(i + 1));
        i += 1;
    }
    assert(bits@.take(i as int) =~= bits@);
    out
}

/// Whether two bit vectors hold the same bits.
pub fn same_bits(a: &Vec<Value>, b: &Vec<Value>) -> (same: bool)
    ensures
        same == (a@ == b@),
{
    if a.len() != b.len() {
        return false;
    }
    let mut i: usize = 0;
    while i < a.len()
        invariant
            i <= a.len(),
            a.len() == b.len(),
            a@.take(i as int) == b@.take(i as int),
        decreases a.len() - i,
    {
        if a[i] != b[i] {
            return false;
        }
        assert(a@.take(i + 1) =~= a@.take(i as int).push(a@[i as int]));
        assert(b@.take(i + 1) =~= b@.take(i as int).push(b@[i as int]));
        i += 1;
    }
    assert(a@.take(i as int) =~= a@);
    assert(b@.take(i as int) =~= b@);
    true
}

impl ValueType {
    /// A copy of this value.
    pub fn copy(&self) -> (out: ValueType)
        ensures
            out@ == self@,
    {
        match self {
            ValueType::Value(v) => ValueType::Value(*v),
            ValueType::Vector(bits) => ValueType::Vector(copy_bits(bits)),
        }
    }

    /// Whether two values are of the same kind and hold the same bits.
    pub fn same(&self, other: &ValueType) -> (same: bool)
        ensures
            same == (self@ == other@),
    {
        match (self, other) {
            (ValueType::Value(a), ValueType::Value(b)) => *a == *b,
            (ValueType::Vector(a), ValueType::Vector(b)) => same_bits(a, b),
            _ => false,
        }
    }
}

impl DisplayEvent {
    /// A copy of this cell.
    pub fn copy(&self) -> (out: DisplayEvent)
        ensures
            out@ == self@,
    {
        match self {
            DisplayEvent::Value(e) => DisplayEvent::Value(*e),
            DisplayEvent::Vector(VectorDisplayEvent::ChangeEvent(bits)) => DisplayEvent::Vector(
                VectorDisplayEvent::ChangeEvent(copy_bits(bits)),
            ),
            DisplayEvent::Vector(VectorDisplayEvent::Stay(bits)) => DisplayEvent::Vector(
                VectorDisplayEvent::Stay(copy_bits(bits)),
            ),
            DisplayEvent::Vector(VectorDisplayEvent::MultipleEvent) => DisplayEvent::Vector(
                VectorDisplayEvent::MultipleEvent,
            ),
        }
    }

    /// Whether the cell shows exactly this value, unchanged or just changed.
    pub fn eq(&self, other: &ValueType) -> (same: bool)
        ensures
            same == (self@ == Cell::Stay(other@) || self@ == Cell::Change(other@)),
    {
        match other {
            ValueType::Value(value) => match self {
                DisplayEvent::Value(ValueDisplayEvent::Stay(v)) => *v == *value,
                DisplayEvent::Value(ValueDisplayEvent::ChangeEvent(v)) => *v == *value,
                _ => false,
            },
            ValueType::Vector(vector) => match self {
                DisplayEvent::Vector(VectorDisplayEvent::Stay(v)) => same_bits(v, vector),
                DisplayEvent::Vector(VectorDisplayEvent::ChangeEvent(v)) => same_bits(v, vector),
                _ => false,
            },
        }
    }
}

/// The timestamped changes of one signal, as plain values.
pub type Timeline = Seq<(u64, Reading)>;

/// The timeline that a list of events stands for.
pub open spec fn timeline(events: Seq<(u64, ValueType)>) -> Timeline {
    Seq::new(events.len(), |i: int| (events[i].0, events[i].1@))
}

/// The first index at or after `from` whose event is not earlier than `bound`;
/// the number of events when there is none.
pub open spec fn first_from(events: Timeline, from: int, bound: int) -> int
    decreases events.len() - from,
{
    if 0 <= from < events.len() && events[from].0 < bound {
        first_from(events, from + 1, bound)
    } else {
        from
    }
}

/// The index of the first event that bucket `i` or a later one can hold: every
/// event before it was passed over at or before bucket `i - 1`.
pub open spec fn cursor(events: Timeline, start: int, width: int, i: nat) -> int
    decreases i,
{
    if i == 0 {
        first_from(events, 0, start)
    } else {
        first_from(events, cursor(events, start, width, (i - 1) as nat), start + i * width)
    }
}

/// The value that stands for no recorded history: the single bit `X` for a
/// signal declared with one bit or less, and `X` in each of its bits for a
/// wider one.
pub open spec fn undefined(size: u32) -> Reading {
    if size <= 1 {
        Reading::Bit(Value::X)
    } else {
        Reading::Bits(Seq::new(size as nat, |i: int| Value::X))
    }
}

/// The value in effect just before the event at index `c`: that of the
/// event before it, or `blank` where none is before it.
pub open spec fn carry_at(events: Timeline, blank: Reading, c: int) -> Reading {
    if c <= 0 {
        blank
    } else {
        events[c - 1].1
    }
}

/// What bucket `i` of a window shows. The bucket is the half-open interval
/// from `start + i * width` to `start + (i + 1) * width`; `blank` is the
/// value in effect before the first event.
pub open spec fn sample_cell(events: Timeline, blank: Reading, start: int, width: int, i: nat) -> Cell {
    let lo = cursor(events, start, width, i);
    let hi = cursor(events, start, width, i + 1);
    if hi == lo {
        Cell::Stay(carry_at(events, blank, lo))
    } else if hi == lo + 1 {
        if events[lo].1 == carry_at(events, blank, lo) {
            Cell::Stay(events[lo].1)
        } else {
            Cell::Change(events[lo].1)
        }
    } else {
        Cell::Multiple { vector: events[lo].1 is Bits }
    }
}

/// The cells of a window of `count` buckets.
pub open spec fn sampled(
    events: Timeline,
    blank: Reading,
    start: int,
    width: int,
    count: nat,
) -> Seq<Cell> {
    Seq::new(count, |i: int| sample_cell(events, blank, start, width, i as nat))
}

/// The contents of a list of cells.
pub open spec fn cells_of(cells: Seq<DisplayEvent>) -> Seq<Cell> {
    Seq::new(cells.len(), |i: int| cells[i]@)
}

/// Why a window cannot be sampled.
#[derive(Clone, Copy, Debug, PartialEq, Eq, Structural)]
pub enum WindowError {
    /// The buckets have no width.
    ZeroWidth,
    /// The window has no bucket.
    ZeroCount,
}

/// One signal of the trace: its identity and its recorded changes.
pub struct Signal {
    /// The identifier code by which change records name the signal.
    pub code: String,
    /// The display name.
    pub name: String,
    /// The declared width in bits.
    pub size: u32,
    /// The recorded changes, in the order in which they were appended.
    pub events: Vec<(u64, ValueType)>,
    /// The names of the scopes that hold the signal, from just below the
    /// root down to the scope that declares it.
    pub scope_path: Vec<String>,
}

/// The declaration of one variable.
pub struct Var {
    /// Width in bits.
    pub size: u32,
    /// The identifier code by which change records name the variable.
    pub code: String,
    /// Name of the variable.
    pub reference: String,
}

/// The mathematical content of a [`Signal`].
pub struct SignalView {
    pub code: Seq<char>,
    pub name: Seq<char>,
    pub size: u32,
    pub events: Timeline,
    pub scope_path: Seq<Seq<char>>,
}

impl SignalView {
    /// The value in effect before the signal's first event.
    pub open spec fn blank(self) -> Reading {
        undefined(self.size)
    }
}

/// The texts of a list of strings.
pub open spec fn texts(names: Seq<String>) -> Seq<Seq<char>> {
    Seq::new(names.len(), |i: int| names[i]@)
}

impl View for Signal {
    type V = SignalView;

    open spec fn view(&self) -> SignalView {
        SignalView {
            code: self.code@,
            name: self.name@,
            size: self.size,
            events: timeline(self.events@),
            scope_path: texts(self.scope_path@),
        }
    }
}

/// The signal that a variable declares in a scope with the given path: no
/// events yet.
pub open spec fn declared_signal(var: Var, path: Seq<Seq<char>>) -> SignalView {
    SignalView {
        code: var.code@,
        name: var.reference@,
        size: var.size,
        events: Seq::empty(),
        scope_path: path,
    }
}

impl Signal {
    /// The signal that a variable declares, without events and not yet
    /// placed in a scope.
    pub fn from_var(var: &Var) -> (signal: Signal)
        ensures
            signal@ == declared_signal(*var, Seq::empty()),
    {
        let signal = Signal {
            code: var.code.clone(),
            name: var.reference.clone(),
            size: var.size,
            events: Vec::new(),
            scope_path: Vec::new(),
        };
        assert(signal@.events =~= Seq::empty());
        assert(signal@.scope_path =~= Seq::empty());
        signal
    }

    /// Appends one change to the timeline.
    pub fn add_event(&mut self, timestamp: u64, value: ValueType)
        ensures
            final(self)@ == (SignalView {
                events: old(self)@.events.push((timestamp, value@)),
                ..old(self)@
            }),
    {
        self.events.push((timestamp, value));
        assert(timeline(self.events@) =~= timeline(old(self).events@).push((timestamp, value@)));
    }

    /// The value that stands for no recorded history of this signal.
    pub fn undefined_value(&self) -> (out: ValueType)
        ensures
            out@ == self@.blank(),
    {
        if self.size <= 1 {
            ValueType::Value(Value::X)
        } else {
            let mut bits: Vec<Value> = Vec::new();
            let mut i: u32 = 0;
            while i < self.size
                invariant
                    i <= self.size,
                    bits@ == Seq::new(i as nat, |j: int| Value::X),
                decreases self.size - i,
            {
                bits.push(Value::X);
                assert(bits@ =~= Seq::new((i + 1) as nat, |j: int| Value::X));
                i += 1;
            }
            ValueType::Vector(bits)
        }
    }

    /// The value in effect just before the event at index `c`.
    fn carry(&self, c: usize) -> (out: ValueType)
        requires
            c <= self.events.len(),
        ensures
            out@ == carry_at(self@.events, self@.blank(), c as int),
    {
        if c == 0 {
            self.undefined_value()
        } else {
            self.events[c - 1].1.copy()
        }
    }

    /// Samples the timeline into `arr_size` cells, one for each bucket of
    /// width `time_step` from `time_start` on.
    ///
    /// A bucket holds the events from its start up to, and not including, its
    /// end. A cell without an event repeats the value in effect; a cell with
    /// one event shows it as a change unless it repeats that value; a cell
    /// with several events is marked as such, and the last of them is in
    /// effect afterwards. Before the first event the undefined value is in
    /// effect, also where the first event lies at the very start of the
    /// window.
    pub fn events_arr_in_range(&self, time_start: u64, time_step: u64, arr_size: usize) -> (cells:
        Result<Vec<DisplayEvent>, WindowError>)
        ensures
            time_step == 0 ==> cells == Err::<Vec<DisplayEvent>, WindowError>(WindowError::ZeroWidth),
            time_step != 0 && arr_size == 0 ==> cells == Err::<Vec<DisplayEvent>, WindowError>(
                WindowError::ZeroCount,
            ),
            time_step != 0 && arr_size != 0 ==> cells is Ok && cells->Ok_0.len() == arr_size
                && cells_of(cells->Ok_0@) == sampled(
                self@.events,
                self@.blank(),
                time_start as int,
                time_step as int,
                arr_size as nat,
            ),
    {
        if time_step == 0 {
            return Err(WindowError::ZeroWidth);
        }
        if arr_size == 0 {
            return Err(WindowError::ZeroCount);
        }
        let ghost events = self@.events;
        let ghost blank = self@.blank();
        let n = self.events.len();
        let mut c: usize = 0;
        while c < n && self.events[c].0 < time_start
            invariant
                c <= n,
                n == self.events.len(),
                events == self@.events,
                first_from(events, c as int, time_start as int) == first_from(
                    events,
                    0,
                    time_start as int,
                ),
            decreases n - c,
        {
            c += 1;
        }
        let mut out: Vec<DisplayEvent> = Vec::new();
        let mut i: usize = 0;
        while i < arr_size
            invariant
                i <= arr_size,
                c <= n,
                n == self.events.len(),
                events == self@.events,
                blank == self@.blank(),
                c == cursor(events, time_start as int, time_step as int, i as nat),
                out.len() == i,
                forall|j: int|
                    0 <= j < i ==> (#[trigger] out[j])@ == sample_cell(
                        events,
                        blank,
                        time_start as int,
                        time_step as int,
                        j as nat,
                    ),
            decreases arr_size - i,
        {
            assert((i + 1) * time_step <= 0x1_0000_0000_0000_0000 * 0xFFFF_FFFF_FFFF_FFFF)
                by (nonlinear_arith)
                requires
                    0 <= i + 1 <= 0x1_0000_0000_0000_0000,
                    0 <= time_step <= 0xFFFF_FFFF_FFFF_FFFF,
            ;
            let end: u128 = time_start as u128 + (i as u128 + 1) * (time_step as u128);
            let lo = c;
            while c < n && (self.events[c].0 as u128) < end
                invariant
                    lo <= c <= n,
                    n == self.events.len(),
                    events == self@.events,
                    first_from(events, c as int, end as int) == first_from(
                        events,
                        lo as int,
                        end as int,
                    ),
                decreases n - c,
            {
                c += 1;
            }
            assert(c == cursor(events, time_start as int, time_step as int, (i + 1) as nat));
            let cell = if c == lo {
                match self.carry(lo) {
                    ValueType::Value(v) => DisplayEvent::Value(ValueDisplayEvent::Stay(v)),
                    ValueType::Vector(bits) => DisplayEvent::Vector(VectorDisplayEvent::Stay(bits)),
                }
            } else if c == lo + 1 {
                let before = self.carry(lo);
                let repeats = before.same(&self.events[lo].1);
                match self.events[lo].1.copy() {
                    ValueType::Value(v) => if repeats {
                        DisplayEvent::Value(ValueDisplayEvent::Stay(v))
                    } else {
                        DisplayEvent::Value(ValueDisplayEvent::ChangeEvent(v))
                    },
                    ValueType::Vector(bits) => if repeats {
                        DisplayEvent::Vector(VectorDisplayEvent::Stay(bits))
                    } else {
                        DisplayEvent::Vector(VectorDisplayEvent::ChangeEvent(bits))
                    },
                }
            } else {
                match self.events[lo].1 {
                    ValueType::Value(_) => DisplayEvent::Value(ValueDisplayEvent::MultipleEvent),
                    ValueType::Vector(_) => DisplayEvent::Vector(VectorDisplayEvent::MultipleEvent),
                }
            };
            assert(cell@ == sample_cell(
                events,
                blank,
                time_start as int,
                time_step as int,
                i as nat,
            ));
            out.push(cell);
            i += 1;
        }
        assert(cells_of(out@) =~= sampled(
            events,
            blank,
            time_start as int,
            time_step as int,
            arr_size as nat,
        ));
        Ok(out)
    }
}

/// The name of a signal with its code: `clk(!)`.
pub open spec fn name_text(signal: SignalView) -> Seq<char> {
    signal.name + "("@ + signal.code + ")"@
}

/// The name of a signal with its code, behind the path of its scope and a
/// colon where that path is not empty: `outer->inner:clk(!)`.
pub open spec fn path_text(signal: SignalView) -> Seq<char> {
    let path = joined(signal.scope_path, path_separator());
    if path.len() != 0 {
        path + ":"@ + name_text(signal)
    } else {
        name_text(signal)
    }
}

/// A signal on one line: its name and code, and its events where it has
/// any.
pub open spec fn signal_text(signal: SignalView) -> Seq<char> {
    let head = "Signal: "@ + signal.name + ", code: "@ + signal.code;
    if signal.events.len() == 0 {
        head + "\n"@
    } else {
        head + ", events: "@ + events_debug(signal.events) + "\n"@
    }
}

impl Signal {
    /// The display name with the code in brackets.
    pub fn output_name(&self) -> (text: String)
        ensures
            text@ == name_text(self@),
    {
        let mut text = self.name.clone();
        text.append("(");
        text.append(self.code.as_str());
        text.append(")");
        text
    }

    /// The display name behind the path of the signal's scope.
    pub fn output_path(&self) -> (text: String)
        ensures
            text@ == path_text(self@),
    {
        let mut text = join_path(&self.scope_path);
        if !text.as_str().is_empty() {
            text.append(":");
        }
        let name = self.output_name();
        text.append(name.as_str());
        assert(text@ =~= path_text(self@));
        text
    }

    /// All events in debugging text.
    pub fn output_events(&self) -> (text: String)
        ensures
            text@ == events_debug(self@.events),
    {
        let ghost events = self@.events;
        let mut text = String::from_str("[");
        let ghost head = text@;
        let mut i: usize = 0;
        while i < self.events.len()
            invariant
                i <= self.events.len(),
                events == self@.events,
                head == "["@,
                text@ == head + events_listed(events, i as int),
            decreases self.events.len() - i,
        {
            if i > 0 {
                text.append(", ");
            }
            assert(events[i as int] == (self.events@[i as int].0, self.events@[i as int].1@));
            push_event_debug(&mut text, self.events[i].0, &self.events[i].1);
            assert(text@ =~= head + events_listed(events, i + 1));
            i += 1;
        }
        text.append("]");
        text
    }

    /// Output a string showing events in the given time range
    /// - `time_start` - the start time
    /// - `time_step` - the minimal time step
    /// - `arr_size` - the size of the final array
    ///
    /// Events at the very end of the range are shown too.
    pub fn events_str_in_range(&self, time_start: u64, time_step: u64, arr_size: usize) -> (text:
        String)
        ensures
            text@ == events_between(
                self@.events,
                time_start as int,
                time_start + time_step * arr_size,
                self@.events.len() as int,
            ),
    {
        assert(time_step * arr_size <= 0xFFFF_FFFF_FFFF_FFFF * 0xFFFF_FFFF_FFFF_FFFF)
            by (nonlinear_arith)
            requires
                0 <= time_step <= 0xFFFF_FFFF_FFFF_FFFF,
                0 <= arr_size <= 0xFFFF_FFFF_FFFF_FFFF,
        ;
        let time_end: u128 = time_start as u128 + time_step as u128 * arr_size as u128;
        let ghost events = self@.events;
        let mut text = String::new();
        let mut i: usize = 0;
        while i < self.events.len()
            invariant
                i <= self.events.len(),
                events == self@.events,
                time_end == time_start + time_step * arr_size,
                text@ == events_between(events, time_start as int, time_end as int, i as int),
            decreases self.events.len() - i,
        {
            assert(events[i as int] == (self.events@[i as int].0, self.events@[i as int].1@));
            let time = self.events[i].0;
            if time_start <= time && time as u128 <= time_end {
                let ghost before = text@;
                text.append("(");
                push_event_debug(&mut text, time, &self.events[i].1);
                text.append("), ");
                assert(text@ =~= before + "("@ + event_debug(events[i as int]) + "), "@);
            }
            i += 1;
        }
        text
    }

    /// The signal on one line of text.
    pub fn display(&self) -> (text: String)
        ensures
            text@ == signal_text(self@),
    {
        let mut text = String::from_str("Signal: ");
        text.append(self.name.as_str());
        text.append(", code: ");
        text.append(self.code.as_str());
        if self.events.len() != 0 {
            text.append(", events: ");
            let events = self.output_events();
            text.append(events.as_str());
        }
        text.append("\n");
        assert(text@ =~= signal_text(self@));
        text
    }
}

/// Sampling is a function of the timeline and the window: two runs on the
/// same timeline and window give the same cells.
pub proof fn lemma_sampling_repeats(
    signal: Signal,
    time_start: u64,
    time_step: u64,
    arr_size: usize,
    first: Vec<DisplayEvent>,
    second: Vec<DisplayEvent>,
)
    requires
        cells_of(first@) == sampled(
            signal@.events,
            signal@.blank(),
            time_start as int,
            time_step as int,
            arr_size as nat,
        ),
        cells_of(second@) == sampled(
            signal@.events,
            signal@.blank(),
            time_start as int,
            time_step as int,
            arr_size as nat,
        ),
    ensures
        cells_of(first@) == cells_of(second@),
        first.len() == arr_size,
        second.len() == arr_size,
{
    assert(cells_of(first@).len() == first.len());
    assert(cells_of(second@).len() == second.len());
}

/// A window has as many cells as it has buckets.
pub proof fn lemma_sampled_len(
    events: Timeline,
    blank: Reading,
    start: int,
    width: int,
    count: nat,
)
    ensures
        sampled(events, blank, start, width, count).len() == count,
{
}

/// A signal without events shows the undefined value, unchanged, in every
/// cell.
pub proof fn lemma_no_events_all_undefined(
    blank: Reading,
    start: int,
    width: int,
    count: nat,
    i: int,
)
    requires
        0 <= i < count,
    ensures
        sampled(Seq::empty(), blank, start, width, count)[i] == Cell::Stay(blank),
{
    let events: Timeline = Seq::empty();
    lemma_cursor_bounds(events, start, width, i as nat);
    lemma_cursor_bounds(events, start, width, (i + 1) as nat);
}

/// `first_from` stops at the first event not earlier than the bound.
pub proof fn lemma_first_from(events: Timeline, from: int, bound: int)
    requires
        0 <= from <= events.len(),
    ensures
        from <= first_from(events, from, bound) <= events.len(),
        forall|j: int| from <= j < first_from(events, from, bound) ==> (#[trigger] events[j]).0 < bound,
        first_from(events, from, bound) < events.len() ==> events[first_from(
            events,
            from,
            bound,
        )].0 >= bound,
    decreases events.len() - from,
{
    if from < events.len() && events[from].0 < bound {
        lemma_first_from(events, from + 1, bound);
    }
}

/// The cursor stays within the timeline and never moves back.
pub proof fn lemma_cursor_bounds(events: Timeline, start: int, width: int, i: nat)
    ensures
        0 <= cursor(events, start, width, i) <= events.len(),
        i > 0 ==> cursor(events, start, width, (i - 1) as nat) <= cursor(events, start, width, i),
    decreases i,
{
    if i == 0 {
        lemma_first_from(events, 0, start);
    } else {
        lemma_cursor_bounds(events, start, width, (i - 1) as nat);
        lemma_first_from(events, cursor(events, start, width, (i - 1) as nat), start + i * width);
    }
}

/// A bucket with two or more events shows that, whatever they are, and the
/// last of them is in effect afterwards: where the next bucket has no
/// event, it shows that last value unchanged.
pub proof fn lemma_multiple_then_last_value(
    events: Timeline,
    blank: Reading,
    start: int,
    width: int,
    i: nat,
)
    requires
        cursor(events, start, width, i + 1) >= cursor(events, start, width, i) + 2,
    ensures
        sample_cell(events, blank, start, width, i) == (Cell::Multiple {
            vector: events[cursor(events, start, width, i)].1 is Bits,
        }),
        cursor(events, start, width, i + 2) == cursor(events, start, width, i + 1) ==> sample_cell(
            events,
            blank,
            start,
            width,
            i + 1,
        ) == Cell::Stay(events[cursor(events, start, width, i + 1) - 1].1),
{
    lemma_cursor_bounds(events, start, width, i);
    lemma_cursor_bounds(events, start, width, i + 1);
}

/// True when the events are all of the kind of `blank`: single bits or
/// vectors.
pub open spec fn of_one_kind(events: Timeline, blank: Reading) -> bool {
    forall|j: int| 0 <= j < events.len() ==> ((#[trigger] events[j]).1 is Bits) == (blank is Bits)
}

/// True of the cells of a vector signal.
pub open spec fn is_vector_cell(cell: Cell) -> bool {
    match cell {
        Cell::Stay(Reading::Bits(_)) | Cell::Change(Reading::Bits(_)) => true,
        Cell::Multiple { vector } => vector,
        _ => false,
    }
}

/// The cells of a signal whose events are all of the kind of its undefined
/// value are of that kind too.
pub proof fn lemma_cells_of_one_kind(
    events: Timeline,
    blank: Reading,
    start: int,
    width: int,
    i: nat,
)
    requires
        of_one_kind(events, blank),
    ensures
        is_vector_cell(sample_cell(events, blank, start, width, i)) == (blank is Bits),
{
    lemma_cursor_bounds(events, start, width, i);
    lemma_cursor_bounds(events, start, width, i + 1);
    let lo = cursor(events, start, width, i);
    if lo > 0 {
        assert((events[lo - 1].1 is Bits) == (blank is Bits));
    }
    if lo < events.len() {
        assert((events[lo].1 is Bits) == (blank is Bits));
    }
}

/// Timestamps never decrease along the timeline.
pub open spec fn in_time_order(events: Timeline) -> bool {
    forall|a: int, b: int| 0 <= a <= b < events.len() ==> (#[trigger] events[a]).0 <= (
    #[trigger] events[b]).0
}

/// On a timeline in time order, the events before the cursor of bucket `i`
/// are exactly those earlier than the bucket's start.
pub proof fn lemma_cursor_splits_by_time(events: Timeline, start: int, width: int, i: nat, j: int)
    requires
        in_time_order(events),
        width >= 0,
        0 <= j < events.len(),
    ensures
        j < cursor(events, start, width, i) <==> events[j].0 < start + i * width,
    decreases i,
{
    if i == 0 {
        lemma_first_from(events, 0, start);
        let r = first_from(events, 0, start);
        if j >= r {
            assert(events[r].0 <= events[j].0);
        }
    } else {
        let before = cursor(events, start, width, (i - 1) as nat);
        lemma_cursor_bounds(events, start, width, (i - 1) as nat);
        lemma_cursor_splits_by_time(events, start, width, (i - 1) as nat, j);
        lemma_first_from(events, before, start + i * width);
        let r = first_from(events, before, start + i * width);
        assert(start + (i - 1) * width <= start + i * width) by (nonlinear_arith)
            requires
                width >= 0,
        ;
        if j >= r {
            assert(events[r].0 <= events[j].0);
        }
    }
}

/// On a timeline in time order, the events of bucket `i` are exactly those
/// with a timestamp from the bucket's start up to, and not including, its end.
pub proof fn lemma_bucket_holds_its_interval(
    events: Timeline,
    start: int,
    width: int,
    i: nat,
    j: int,
)
    requires
        in_time_order(events),
        width >= 0,
        0 <= j < events.len(),
    ensures
        cursor(events, start, width, i) <= j < cursor(events, start, width, i + 1) <==> start + i
            * width <= events[j].0 < start + (i + 1) * width,
{
    lemma_cursor_splits_by_time(events, start, width, i, j);
    lemma_cursor_splits_by_time(events, start, width, i + 1, j);
}

} // verus!

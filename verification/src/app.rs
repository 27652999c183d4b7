//! The state of the viewer and what each key does to it.

use vstd::prelude::*;
use vstd::string::{StrSliceExecFns, StringExecFns};
use crate::module::Module;
use crate::signal::{sampled, Cell, Signal, WindowError};
use crate::time::{
    display_text, message_text, next_step, on_ladder, prev_step, text_time, Time, TimeUnit,
    TOP_STEP,
};
use crate::ui::{band, cells_text, drawable, lines_from_cells, rows_of, value_string, Glyph, Tone};

verus! {

/// What the viewer is doing.
#[derive(Clone, Copy, Debug, PartialEq, Eq, Structural)]
pub enum AppMode {
    /// Showing the waveforms.
    Run,
    /// Taking the text of a start time.
    Input,
    /// Done.
    Exit,
    /// Showing the panel for adding a signal.
    AddSignal,
}

/// A key press, as far as the viewer tells keys apart.
#[derive(Clone, Copy, Debug, PartialEq, Eq, Structural)]
pub enum Key {
    Char(char),
    Esc,
    Enter,
    Other,
}

/// What the shell around the viewer does with its input line after a key.
#[derive(Clone, Copy, Debug, PartialEq, Eq, Structural)]
pub enum Action {
    /// Nothing.
    Nothing,
    /// Empty the input line.
    ClearInput,
    /// Hand the key to the input line.
    EditInput,
}

/// The viewer: the loaded trace, the window on it, and the mode.
pub struct App {
    module_root: Module,
    time_start: Time,
    time_step: Time,
    arr_size: usize,
    mode: AppMode,
}

/// The window and mode of a viewer, as plain values.
pub struct AppView {
    pub time_start: nat,
    pub time_step: nat,
    pub arr_size: nat,
    pub mode: AppMode,
}

/// How far `h` and `l` move the window: half the cells, each one step
/// wide; at most the largest time that 64 bits hold.
pub open spec fn page_shift(state: AppView) -> nat {
    let shift = (state.arr_size / 2) * state.time_step;
    if shift > u64::MAX {
        u64::MAX as nat
    } else {
        shift
    }
}

/// The state after a key. `input` is the text of the input line.
pub open spec fn after_key(state: AppView, key: Key, input: Seq<char>) -> AppView {
    match state.mode {
        AppMode::Run => match key {
            Key::Char('a') => AppView { mode: AppMode::AddSignal, ..state },
            Key::Char('q') => AppView { mode: AppMode::Exit, ..state },
            Key::Char('=') => AppView { time_step: prev_step(state.time_step), ..state },
            Key::Char('-') => if state.time_step < TOP_STEP {
                AppView { time_step: next_step(state.time_step), ..state }
            } else {
                state
            },
            Key::Char('h') => AppView {
                time_start: if state.time_start >= page_shift(state) {
                    (state.time_start - page_shift(state)) as nat
                } else {
                    0
                },
                ..state
            },
            Key::Char('l') => AppView {
                time_start: if state.time_start + page_shift(state) <= u64::MAX {
                    state.time_start + page_shift(state)
                } else {
                    u64::MAX as nat
                },
                ..state
            },
            Key::Char('t') => AppView { mode: AppMode::Input, ..state },
            _ => state,
        },
        AppMode::Input => match key {
            Key::Esc => AppView { mode: AppMode::Run, ..state },
            Key::Enter => match text_time(input) {
                Ok(time) => AppView { mode: AppMode::Run, time_start: time, ..state },
                Err(_) => state,
            },
            _ => state,
        },
        AppMode::AddSignal => match key {
            Key::Esc => AppView { mode: AppMode::Run, ..state },
            _ => state,
        },
        AppMode::Exit => state,
    }
}

/// What the shell does with its input line after a key: it is emptied when
/// `t` opens it, and it takes every key but Esc and Enter while it is open.
pub open spec fn action_of(state: AppView, key: Key) -> Action {
    match state.mode {
        AppMode::Run => match key {
            Key::Char('t') => Action::ClearInput,
            _ => Action::Nothing,
        },
        AppMode::Input => match key {
            Key::Esc => Action::Nothing,
            Key::Enter => Action::Nothing,
            _ => Action::EditInput,
        },
        _ => Action::Nothing,
    }
}

/// Why a signal cannot be drawn.
#[derive(Clone, Copy, Debug, PartialEq, Eq, Structural)]
pub enum DrawError {
    /// The window has no width or no cells.
    Window(WindowError),
    /// The signal holds single bits among vectors.
    MixedKinds,
}

/// The cells that the window shows of a signal.
pub open spec fn window_cells(state: AppView, signal: Signal) -> Seq<Cell> {
    sampled(
        signal@.events,
        signal@.blank(),
        state.time_start as int,
        state.time_step as int,
        state.arr_size,
    )
}

/// Why the window cannot be sampled, if it cannot.
pub open spec fn window_error(state: AppView) -> Option<WindowError> {
    if state.time_step == 0 {
        Some(WindowError::ZeroWidth)
    } else if state.arr_size == 0 {
        Some(WindowError::ZeroCount)
    } else {
        None
    }
}

/// A run of blanks.
pub open spec fn blanks(count: int) -> Seq<char> {
    Seq::new(
        if count > 0 {
            count as nat
        } else {
            0
        },
        |i: int| ' ',
    )
}

/// A text cut or filled with blanks to exactly `width` characters.
pub open spec fn fitted(text: Seq<char>, width: nat) -> Seq<char> {
    if text.len() > width {
        text.take(width as int)
    } else {
        text + blanks(width - text.len())
    }
}

/// The time at cell `index` of the window, at most the largest that 64
/// bits hold.
pub open spec fn stamp_time(state: AppView, index: nat) -> nat {
    let time = state.time_start + index * state.time_step;
    if time > u64::MAX {
        u64::MAX as nat
    } else {
        time
    }
}

/// The width of the strip that starts at cell `index`: ten cells, or what
/// is left of the window.
pub open spec fn strip_len(state: AppView, index: nat) -> nat {
    if state.arr_size - index < 10 {
        (state.arr_size - index) as nat
    } else {
        10
    }
}

/// The number of strips of ten cells that the window has, the last one
/// perhaps shorter.
pub open spec fn strips(state: AppView) -> nat {
    (state.arr_size + 9) / 10
}

/// The time labels of the first `count` strips: the time at the first cell
/// of each strip, cut or filled to the strip's width.
pub open spec fn stamp_labels(state: AppView, count: nat) -> Seq<char>
    decreases count,
{
    if count == 0 {
        Seq::empty()
    } else {
        let index = (10 * (count - 1)) as nat;
        stamp_labels(state, (count - 1) as nat) + fitted(
            display_text(stamp_time(state, index)),
            strip_len(state, index),
        )
    }
}

/// The tick marks of the first `count` strips: a bar at the first cell of
/// each strip, blanks at the others.
pub open spec fn stamp_ticks(state: AppView, count: nat) -> Seq<char>
    decreases count,
{
    if count == 0 {
        Seq::empty()
    } else {
        let index = (10 * (count - 1)) as nat;
        stamp_ticks(state, (count - 1) as nat) + seq!['|'] + blanks(strip_len(state, index) - 1)
    }
}

/// The title of the input line for a text: whether it is a time, and why
/// not if it is not.
pub open spec fn prompt_title(input: Seq<char>) -> Seq<char> {
    match text_time(input) {
        Ok(_) => "Enter a time (e.g. 100ns) [Valid]"@,
        Err(kind) => if input.len() == 0 {
            "Enter a time (e.g. 100ns)"@
        } else {
            "Enter a time (e.g. 100ns) [Invalid: "@ + message_text(kind) + "]"@
        },
    }
}

/// The colour of the input line for a text: green for a time, the colour
/// of text for nothing at all, red for anything else.
pub open spec fn prompt_tone(input: Seq<char>) -> Tone {
    match text_time(input) {
        Ok(_) => Tone::Green,
        Err(_) => if input.len() == 0 {
            Tone::Text
        } else {
            Tone::Red
        },
    }
}

/// The title and colour of the input line for its text.
pub fn input_prompt(input: &str) -> (prompt: (String, Tone))
    ensures
        prompt.0@ == prompt_title(input@),
        prompt.1 == prompt_tone(input@),
{
    match Time::is_valid(input) {
        Ok(_) => (String::from_str("Enter a time (e.g. 100ns) [Valid]"), Tone::Green),
        Err(e) => {
            if input.is_empty() {
                (String::from_str("Enter a time (e.g. 100ns)"), Tone::Text)
            } else {
                let mut title = String::from_str("Enter a time (e.g. 100ns) [Invalid: ");
                let message = e.message();
                title.append(message.as_str());
                title.append("]");
                (title, Tone::Red)
            }
        },
    }
}

/// Appends a text cut or filled with blanks to exactly `width` characters.
fn push_fitted(line: &mut String, text: &str, width: usize)
    ensures
        final(line)@ == old(line)@ + fitted(text@, width as nat),
{
    let len = text.unicode_len();
    if len > width {
        line.append(text.substring_char(0, width));
        assert(text@.subrange(0, width as int) =~= text@.take(width as int));
    } else {
        line.append(text);
        push_blanks(line, width - len);
    }
}

/// Appends a run of blanks.
fn push_blanks(line: &mut String, count: usize)
    ensures
        final(line)@ == old(line)@ + blanks(count as int),
{
    let mut i: usize = 0;
    while i < count
        invariant
            i <= count,
            line@ == old(line)@ + blanks(i as int),
        decreases count - i,
    {
        proof {
            reveal_strlit(" ");
        }
        line.append(" ");
        assert(line@ =~= old(line)@ + blanks(i + 1));
        i += 1;
    }
    assert(line@ =~= old(line)@ + blanks(count as int));
}

impl View for App {
    type V = AppView;

    closed spec fn view(&self) -> AppView {
        AppView {
            time_start: self.time_start@,
            time_step: self.time_step@,
            arr_size: self.arr_size as nat,
            mode: self.mode,
        }
    }
}

impl App {
    /// The loaded trace.
    pub closed spec fn root(&self) -> Module {
        self.module_root
    }

    /// The step is always a rung of the zoom ladder.
    #[verifier::type_invariant]
    spec fn on_a_rung(self) -> bool {
        on_ladder(self.time_step@)
    }


    /// A viewer of a loaded trace whose times count in `unit`: the window
    /// starts at zero with a hundred cells of ten units each.
    ///
    /// `None` for femtoseconds, of which ten make no whole picosecond.
    pub fn new(module_root: Module, unit: TimeUnit) -> (made: Option<App>)
        ensures
            made is Some <==> unit != TimeUnit::FS,
            made matches Some(app) ==> app.root() == module_root && app@ == (AppView {
                time_start: 0,
                time_step: crate::time::scaled(10, unit),
                arr_size: 100,
                mode: AppMode::Run,
            }),
    {
        let time_start = match Time::new(0, unit) {
            Some(t) => t,
            None => {
                return None;
            },
        };
        let time_step = match Time::new(10, unit) {
            Some(t) => t,
            None => {
                return None;
            },
        };
        if !time_step.is_on_ladder() {
            proof {
                crate::time::lemma_ten_units_on_ladder(unit);
            }
            return None;
        }
        proof {
            crate::time::lemma_ten_units_on_ladder(unit);
        }
        Some(App { module_root, time_start, time_step, arr_size: 100, mode: AppMode::Run })
    }

    /// The loaded trace.
    pub fn module_root(&self) -> (root: &Module)
        ensures
            *root == self.root(),
    {
        &self.module_root
    }

    /// The start of the window.
    pub fn time_start(&self) -> (t: Time)
        ensures
            t@ == self@.time_start,
    {
        self.time_start
    }

    /// The width of one cell, always a rung of the zoom ladder.
    pub fn time_step(&self) -> (t: Time)
        ensures
            t@ == self@.time_step,
            on_ladder(t@),
    {
        proof {
            use_type_invariant(self);
        }
        self.time_step
    }

    /// The number of cells of the window.
    pub fn arr_size(&self) -> (n: usize)
        ensures
            n == self@.arr_size,
    {
        self.arr_size
    }

    /// The mode.
    pub fn mode(&self) -> (mode: AppMode)
        ensures
            mode == self@.mode,
    {
        self.mode
    }

    /// Sets the number of cells to what the screen has room for.
    pub fn set_arr_size(&mut self, arr_size: usize)
        ensures
            final(self).root() == old(self).root(),
            final(self)@ == (AppView { arr_size: arr_size as nat, ..old(self)@ }),
    {
        proof {
            use_type_invariant(&*self);
        }
        self.arr_size = arr_size;
    }

    /// Takes one key: changes the window or the mode as [`after_key`]
    /// says, and tells what to do with the input line.
    pub fn handle_key_event(&mut self, key: Key, input: &str) -> (action: Action)
        ensures
            final(self).root() == old(self).root(),
            final(self)@ == after_key(old(self)@, key, input@),
            action == action_of(old(self)@, key),
    {
        proof {
            use_type_invariant(&*self);
            crate::time::lemma_prev_step_on_ladder(self@.time_step);
            crate::time::lemma_next_step_on_ladder(self@.time_step);
        }
        match self.mode {
            AppMode::Run => match key {
                Key::Char('a') => {
                    self.mode = AppMode::AddSignal;
                    Action::Nothing
                },
                Key::Char('q') => {
                    self.mode = AppMode::Exit;
                    Action::Nothing
                },
                Key::Char('=') => {
                    let mut step = self.time_step;
                    step.step_decrease();
                    self.time_step = step;
                    Action::Nothing
                },
                Key::Char('-') => {
                    let mut step = self.time_step;
                    if step.time() < TOP_STEP {
                        step.step_increase();
                    }
                    self.time_step = step;
                    Action::Nothing
                },
                Key::Char('h') => {
                    let mut start = self.time_start;
                    start.decrease(self.shift());
                    self.time_start = start;
                    Action::Nothing
                },
                Key::Char('l') => {
                    let mut start = self.time_start;
                    start.increase(self.shift());
                    self.time_start = start;
                    Action::Nothing
                },
                Key::Char('t') => {
                    self.mode = AppMode::Input;
                    Action::ClearInput
                },
                _ => Action::Nothing,
            },
            AppMode::Input => match key {
                Key::Esc => {
                    self.mode = AppMode::Run;
                    Action::Nothing
                },
                Key::Enter => {
                    match Time::from_str(input) {
                        Ok(time) => {
                            self.mode = AppMode::Run;
                            self.time_start = time;
                        },
                        Err(_) => {},
                    }
                    Action::Nothing
                },
                _ => Action::EditInput,
            },
            AppMode::AddSignal => match key {
                Key::Esc => {
                    self.mode = AppMode::Run;
                    Action::Nothing
                },
                _ => Action::Nothing,
            },
            AppMode::Exit => Action::Nothing,
        }
    }

    /// The line of values of a signal in the window.
    pub fn get_value_string_from_a_signal(&self, signal: &Signal) -> (text: Result<
        String,
        WindowError,
    >)
        ensures
            match window_error(self@) {
                Some(error) => text == Err::<String, WindowError>(error),
                None => text is Ok && text->Ok_0@ == cells_text(
                    window_cells(self@, *signal),
                    self@.arr_size as int,
                ),
            },
    {
        match signal.events_arr_in_range(
            self.time_start.time(),
            self.time_step.time(),
            self.arr_size,
        ) {
            Ok(cells) => {
                assert(cells@.len() == crate::signal::cells_of(cells@).len());
                Ok(value_string(&cells))
            },
            Err(error) => Err(error),
        }
    }

    /// The band of glyph rows of a signal in the window.
    pub fn get_lines_from_a_signal(&self, signal: &Signal) -> (lines: Result<
        Vec<Vec<Glyph>>,
        DrawError,
    >)
        ensures
            match window_error(self@) {
                Some(error) => lines == Err::<Vec<Vec<Glyph>>, DrawError>(DrawError::Window(error)),
                None => if drawable(window_cells(self@, *signal)) {
                    lines is Ok && rows_of(lines->Ok_0@) == band(window_cells(self@, *signal))
                } else {
                    lines == Err::<Vec<Vec<Glyph>>, DrawError>(DrawError::MixedKinds)
                },
            },
    {
        match signal.events_arr_in_range(
            self.time_start.time(),
            self.time_step.time(),
            self.arr_size,
        ) {
            Ok(cells) => match lines_from_cells(&cells) {
                Some(rows) => Ok(rows),
                None => Err(DrawError::MixedKinds),
            },
            Err(error) => Err(DrawError::Window(error)),
        }
    }

    /// The time at cell `index` of the window.
    fn stamp(&self, index: usize) -> (time: Time)
        ensures
            time@ == stamp_time(self@, index as nat),
    {
        let step: u128 = self.time_step.time() as u128;
        assert(index * step <= 0xFFFF_FFFF_FFFF_FFFF * 0xFFFF_FFFF_FFFF_FFFF) by (nonlinear_arith)
            requires
                0 <= index <= 0xFFFF_FFFF_FFFF_FFFF,
                0 <= step <= 0xFFFF_FFFF_FFFF_FFFF,
        ;
        let at: u128 = self.time_start.time() as u128 + index as u128 * step;
        let mut time = self.time_start;
        if at > u64::MAX as u128 {
            time.increase(u64::MAX);
        } else {
            time.increase((at - self.time_start.time() as u128) as u64);
        }
        time
    }

    /// The two lines above the signals: a time label for every tenth cell,
    /// and a tick mark under the first character of each label.
    pub fn time_axis(&self) -> (lines: (String, String))
        ensures
            lines.0@ == stamp_labels(self@, strips(self@)),
            lines.1@ == stamp_ticks(self@, strips(self@)),
    {
        let mut labels = String::new();
        let mut ticks = String::new();
        let mut index: usize = 0;
        let ghost mut count: nat = 0;
        while index < self.arr_size
            invariant
                index <= self.arr_size,
                index == 10 * count || index == self.arr_size,
                count == (index + 9) / 10,
                labels@ == stamp_labels(self@, count),
                ticks@ == stamp_ticks(self@, count),
            decreases self.arr_size - index,
        {
            proof {
                reveal_strlit("|");
            }
            let width: usize = if self.arr_size - index < 10 {
                self.arr_size - index
            } else {
                10
            };
            let label = self.stamp(index).display();
            push_fitted(&mut labels, label.as_str(), width);
            ticks.append("|");
            push_blanks(&mut ticks, width - 1);
            proof {
                assert(index == 10 * count);
                count = count + 1;
                assert(ticks@ =~= stamp_ticks(self@, count));
            }
            index = index + width;
        }
        (labels, ticks)
    }

    /// How far `h` and `l` move the window.
    fn shift(&self) -> (shift: u64)
        ensures
            shift == page_shift(self@),
    {
        let half: u128 = (self.arr_size / 2) as u128;
        let step: u128 = self.time_step.time() as u128;
        assert(half * step <= 0xFFFF_FFFF_FFFF_FFFF * 0xFFFF_FFFF_FFFF_FFFF) by (nonlinear_arith)
            requires
                0 <= half <= 0xFFFF_FFFF_FFFF_FFFF,
                0 <= step <= 0xFFFF_FFFF_FFFF_FFFF,
        ;
        let shift = half * step;
        if shift > u64::MAX as u128 {
            u64::MAX
        } else {
            shift as u64
        }
    }
}

} // verus!

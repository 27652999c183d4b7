//! Time as a count of picoseconds, with unit scaling and zoom steps.

use vstd::prelude::*;
use vstd::string::{StrSliceExecFns, StringExecFns};
use crate::text::{decimal, decimal_string, digit_char, digit_str};

verus! {

/// A unit of time, from seconds down to femtoseconds.
#[derive(Clone, Copy, Debug, PartialEq, Eq, Structural)]
pub enum TimeUnit {
    S,
    MS,
    US,
    NS,
    PS,
    FS,
}

/// Ticks of each unit in one second.
pub open spec fn ticks_per_second(unit: TimeUnit) -> nat {
    match unit {
        TimeUnit::S => 1,
        TimeUnit::MS => 1_000,
        TimeUnit::US => 1_000_000,
        TimeUnit::NS => 1_000_000_000,
        TimeUnit::PS => 1_000_000_000_000,
        TimeUnit::FS => 1_000_000_000_000_000,
    }
}

/// Calls `vcd::TimescaleUnit::divisor` on the matching unit: the number of
/// ticks of that unit in one second.
#[verifier::external_body]
fn unit_divisor(unit: TimeUnit) -> (d: u64)
    ensures
        d == ticks_per_second(unit),
{
    let outside = match unit {
        TimeUnit::S => vcd::TimescaleUnit::S,
        TimeUnit::MS => vcd::TimescaleUnit::MS,
        TimeUnit::US => vcd::TimescaleUnit::US,
        TimeUnit::NS => vcd::TimescaleUnit::NS,
        TimeUnit::PS => vcd::TimescaleUnit::PS,
        TimeUnit::FS => vcd::TimescaleUnit::FS,
    };
    outside.divisor()
}

/// The suffix that names a unit in text.
pub open spec fn unit_suffix(unit: TimeUnit) -> Seq<char> {
    match unit {
        TimeUnit::S => seq!['s'],
        TimeUnit::MS => seq!['m', 's'],
        TimeUnit::US => seq!['u', 's'],
        TimeUnit::NS => seq!['n', 's'],
        TimeUnit::PS => seq!['p', 's'],
        TimeUnit::FS => seq!['f', 's'],
    }
}

/// The unit that a suffix names, if any.
pub open spec fn unit_named(text: Seq<char>) -> Option<TimeUnit> {
    if text == unit_suffix(TimeUnit::S) {
        Some(TimeUnit::S)
    } else if text == unit_suffix(TimeUnit::MS) {
        Some(TimeUnit::MS)
    } else if text == unit_suffix(TimeUnit::US) {
        Some(TimeUnit::US)
    } else if text == unit_suffix(TimeUnit::NS) {
        Some(TimeUnit::NS)
    } else if text == unit_suffix(TimeUnit::PS) {
        Some(TimeUnit::PS)
    } else if text == unit_suffix(TimeUnit::FS) {
        Some(TimeUnit::FS)
    } else {
        None
    }
}

/// Formats the matching `vcd::TimescaleUnit` with its `Display` impl, which
/// writes `s`, `ms`, `us`, `ns`, `ps` or `fs`.
#[verifier::external_body]
fn unit_text(unit: TimeUnit) -> (s: String)
    ensures
        s@ == unit_suffix(unit),
{
    let outside = match unit {
        TimeUnit::S => vcd::TimescaleUnit::S,
        TimeUnit::MS => vcd::TimescaleUnit::MS,
        TimeUnit::US => vcd::TimescaleUnit::US,
        TimeUnit::NS => vcd::TimescaleUnit::NS,
        TimeUnit::PS => vcd::TimescaleUnit::PS,
        TimeUnit::FS => vcd::TimescaleUnit::FS,
    };
    outside.to_string()
}

/// Parses a suffix with the `FromStr` impl of `vcd::TimescaleUnit`, which
/// takes exactly `s`, `ms`, `us`, `ns`, `ps` and `fs` and refuses the rest.
#[verifier::external_body]
fn unit_from_text(text: &str) -> (unit: Option<TimeUnit>)
    ensures
        unit == unit_named(text@),
{
    match text.parse::<vcd::TimescaleUnit>() {
        Ok(vcd::TimescaleUnit::S) => Some(TimeUnit::S),
        Ok(vcd::TimescaleUnit::MS) => Some(TimeUnit::MS),
        Ok(vcd::TimescaleUnit::US) => Some(TimeUnit::US),
        Ok(vcd::TimescaleUnit::NS) => Some(TimeUnit::NS),
        Ok(vcd::TimescaleUnit::PS) => Some(TimeUnit::PS),
        Ok(vcd::TimescaleUnit::FS) => Some(TimeUnit::FS),
        Err(_) => None,
    }
}

/// What `str::trim` leaves of a text: the text without the white space at
/// its two ends.
pub uninterp spec fn trimmed(text: Seq<char>) -> Seq<char>;

/// Calls `str::trim`, which returns the slice without leading and trailing
/// white space.
#[verifier::external_body]
fn trim(text: &str) -> (inner: &str)
    ensures
        inner@ == trimmed(text@),
{
    text.trim()
}

/// A point or span of time, held as a whole number of picoseconds.
#[derive(Clone, Copy, Debug)]
pub struct Time {
    time: u64,
}

impl View for Time {
    type V = nat;

    closed spec fn view(&self) -> nat {
        self.time as nat
    }
}

/// Ten to the power `j`.
pub open spec fn pow10(j: nat) -> nat
    decreases j,
{
    if j == 0 {
        1
    } else {
        10 * pow10((j - 1) as nat)
    }
}

/// The count of picoseconds that `count` ticks of `unit` make, rounded down.
pub open spec fn scaled(count: nat, unit: TimeUnit) -> nat {
    (count * 1_000_000_000_000) / ticks_per_second(unit)
}

/// True of the powers of ten: 1, 10, 100, ...
pub open spec fn is_decade(t: nat) -> bool {
    exists|j: nat| t == #[trigger] pow10(j)
}

/// True of five times a power of ten: 5, 50, 500, ...
pub open spec fn is_half_decade(t: nat) -> bool {
    exists|j: nat| t == 5 * #[trigger] pow10(j)
}

/// True of the values of the zoom ladder 1, 5, 10, 50, 100, 500, 1000, ...
pub open spec fn on_ladder(t: nat) -> bool {
    is_decade(t) || is_half_decade(t)
}

/// The rung above `t` on the zoom ladder.
pub open spec fn next_step(t: nat) -> nat {
    if is_decade(t) {
        5 * t
    } else {
        2 * t
    }
}

/// The rung below `t` on the zoom ladder; the lowest rung, 1, stays.
pub open spec fn prev_step(t: nat) -> nat {
    if t == 1 {
        1
    } else if is_decade(t) {
        t / 2
    } else {
        t / 5
    }
}

/// True when `t` is below 1000 or a multiple of 1000 whose quotient is
/// aligned in turn: a number below 1000 followed by groups of three zeros.
pub open spec fn aligned(t: nat) -> bool
    decreases t,
{
    t < 1000 || (t % 1000 == 0 && aligned(t / 1000))
}

/// What is left of `t` after dividing by 1000 for as long as it is at least
/// 1000.
pub open spec fn leading(t: nat) -> nat
    decreases t,
{
    if t < 1000 {
        t
    } else {
        leading(t / 1000)
    }
}

/// The unit in which a time is shown: the largest of seconds down to
/// picoseconds of which the time holds at least one; picoseconds for zero.
pub open spec fn display_unit(t: nat) -> TimeUnit {
    if t >= 1_000_000_000_000 {
        TimeUnit::S
    } else if t >= 1_000_000_000 {
        TimeUnit::MS
    } else if t >= 1_000_000 {
        TimeUnit::US
    } else if t >= 1_000 {
        TimeUnit::NS
    } else {
        TimeUnit::PS
    }
}

/// The number of decimal places that a unit has above the picosecond.
pub open spec fn places(unit: TimeUnit) -> nat {
    match unit {
        TimeUnit::S => 12,
        TimeUnit::MS => 9,
        TimeUnit::US => 6,
        TimeUnit::NS => 3,
        TimeUnit::PS => 0,
        TimeUnit::FS => 0,
    }
}

/// The digits after the decimal point of `rest / 10^width`, for `rest`
/// below `10^width`: leading zeros kept, trailing zeros left out.
pub open spec fn fraction_digits(rest: nat, width: nat) -> Seq<char>
    decreases width,
{
    if rest == 0 || width == 0 {
        Seq::empty()
    } else {
        let place = pow10((width - 1) as nat);
        seq![digit_char(rest / place)] + fraction_digits(rest % place, (width - 1) as nat)
    }
}

/// The number in the text of a time: the time in its display unit as an
/// exact decimal number, with a decimal point only where digits follow it.
pub open spec fn display_number(t: nat) -> Seq<char> {
    let unit = display_unit(t);
    let scale = pow10(places(unit));
    let whole = decimal(t / scale);
    if t % scale == 0 {
        whole
    } else {
        whole + seq!['.'] + fraction_digits(t % scale, places(unit))
    }
}

/// The text of a time: the exact decimal number of its display unit,
/// followed by the unit's suffix.
pub open spec fn display_text(t: nat) -> Seq<char> {
    display_number(t) + unit_suffix(display_unit(t))
}

/// Why a text is not a time.
#[derive(Clone, Copy, Debug, PartialEq, Eq, Structural)]
pub enum ParseTimeErrorKind {
    /// Nothing but white space.
    Empty,
    /// A number without a unit after it.
    Split,
    /// The part before the unit is not a decimal number.
    Number,
    /// The part after the number names no unit.
    Unit,
    /// Femtoseconds, which are finer than the picosecond.
    Femtosecond,
    /// The time is not a whole number of picoseconds.
    Fraction,
}

/// The error of parsing a time.
#[derive(Clone, Copy, Debug, PartialEq, Eq, Structural)]
pub struct ParseTimeError {
    pub kind: ParseTimeErrorKind,
}

/// The message of each kind of error.
pub open spec fn message_text(kind: ParseTimeErrorKind) -> Seq<char> {
    match kind {
        ParseTimeErrorKind::Empty => "Empty string"@,
        ParseTimeErrorKind::Split => "Split error"@,
        ParseTimeErrorKind::Number => "Parse time error"@,
        ParseTimeErrorKind::Unit => "Parse unit error"@,
        ParseTimeErrorKind::Femtosecond => "Not support FS time scale"@,
        ParseTimeErrorKind::Fraction => "Time must be an integer in ps"@,
    }
}

impl ParseTimeError {
    /// The reason in words.
    pub fn message(&self) -> (text: String)
        ensures
            text@ == message_text(self.kind),
    {
        match self.kind {
            ParseTimeErrorKind::Empty => String::from_str("Empty string"),
            ParseTimeErrorKind::Split => String::from_str("Split error"),
            ParseTimeErrorKind::Number => String::from_str("Parse time error"),
            ParseTimeErrorKind::Unit => String::from_str("Parse unit error"),
            ParseTimeErrorKind::Femtosecond => String::from_str("Not support FS time scale"),
            ParseTimeErrorKind::Fraction => String::from_str("Time must be an integer in ps"),
        }
    }

    /// The error as one line of text.
    pub fn display(&self) -> (text: String)
        ensures
            text@ == "Parse time error: "@ + message_text(self.kind),
    {
        let mut text = String::from_str("Parse time error: ");
        let message = self.message();
        text.append(message.as_str());
        text
    }
}

/// True of the ten decimal digits.
pub open spec fn is_digit(c: char) -> bool {
    '0' <= c <= '9'
}

/// The number that a digit stands for.
pub open spec fn digit_value(c: char) -> nat {
    (c as nat - '0' as nat) as nat
}

/// True of the characters that a number is written with: digits and the
/// decimal point.
pub open spec fn is_numeric(c: char) -> bool {
    is_digit(c) || c == '.'
}

/// The first index at or after `from` of a character that is neither a
/// digit nor a decimal point; the length of the text when there is none.
pub open spec fn number_end(text: Seq<char>, from: int) -> int
    decreases text.len() - from,
{
    if 0 <= from < text.len() && is_numeric(text[from]) {
        number_end(text, from + 1)
    } else {
        from
    }
}

/// The index of the first decimal point at or after `from`; the length of
/// the text when there is none.
pub open spec fn point_at(text: Seq<char>, from: int) -> int
    decreases text.len() - from,
{
    if 0 <= from < text.len() && text[from] != '.' {
        point_at(text, from + 1)
    } else {
        from
    }
}

/// The digits before the decimal point.
pub open spec fn whole_part(number: Seq<char>) -> Seq<char> {
    number.take(point_at(number, 0))
}

/// The digits after the decimal point; none without a point.
pub open spec fn fraction_part(number: Seq<char>) -> Seq<char> {
    if point_at(number, 0) < number.len() {
        number.skip(point_at(number, 0) + 1)
    } else {
        Seq::empty()
    }
}

/// True when every character is a digit.
pub open spec fn all_digits(text: Seq<char>) -> bool {
    forall|i: int| 0 <= i < text.len() ==> is_digit(#[trigger] text[i])
}

/// True of a decimal number: digits with at most one decimal point among
/// them, and at least one digit.
pub open spec fn is_number(number: Seq<char>) -> bool {
    &&& all_digits(whole_part(number))
    &&& all_digits(fraction_part(number))
    &&& whole_part(number).len() + fraction_part(number).len() > 0
}

/// The number that results from writing more digits after a number.
pub open spec fn digits_after(value: nat, digits: Seq<char>) -> nat
    decreases digits.len(),
{
    if digits.len() == 0 {
        value
    } else {
        10 * digits_after(value, digits.drop_last()) + digit_value(digits.last())
    }
}

/// The number that a text of digits spells; zero for no digits.
pub open spec fn digits_value(digits: Seq<char>) -> nat {
    digits_after(0, digits)
}

/// A number, or 2^64 in place of any number from there on.
pub open spec fn capped(value: nat) -> nat {
    if value < 0x1_0000_0000_0000_0000 {
        value
    } else {
        0x1_0000_0000_0000_0000
    }
}

/// Writing two runs of digits after a number is writing their
/// concatenation.
pub proof fn lemma_digits_after_concat(value: nat, a: Seq<char>, b: Seq<char>)
    ensures
        digits_after(digits_after(value, a), b) == digits_after(value, a + b),
    decreases b.len(),
{
    if b.len() == 0 {
        assert(a + b =~= a);
    } else {
        lemma_digits_after_concat(value, a, b.drop_last());
        assert((a + b).drop_last() =~= a + b.drop_last());
    }
}

/// The index of the first decimal point of a text; its length without one.
fn find_point(text: &str) -> (point: usize)
    ensures
        point == point_at(text@, 0),
        point <= text@.len(),
{
    let len = text.unicode_len();
    let mut point: usize = 0;
    while point < len && text.get_char(point) != '.'
        invariant
            point <= len,
            len == text@.len(),
            point_at(text@, point as int) == point_at(text@, 0),
        decreases len - point,
    {
        point += 1;
    }
    point
}

/// Whether the characters from `from` up to `to` are all digits.
fn all_digits_in(text: &str, from: usize, to: usize) -> (yes: bool)
    requires
        from <= to <= text@.len(),
    ensures
        yes == all_digits(text@.subrange(from as int, to as int)),
{
    let ghost part = text@.subrange(from as int, to as int);
    let mut i: usize = from;
    while i < to
        invariant
            from <= i <= to <= text@.len(),
            part == text@.subrange(from as int, to as int),
            forall|j: int| 0 <= j < i - from ==> is_digit(#[trigger] part[j]),
        decreases to - i,
    {
        let c = text.get_char(i);
        if !(c >= '0' && c <= '9') {
            assert(part[i - from] == c);
            return false;
        }
        assert(part[i - from] == c);
        i += 1;
    }
    true
}

/// Whether the characters from `from` up to `to` are all `0`.
fn zeros_in(text: &str, from: usize, to: usize) -> (yes: bool)
    requires
        from <= to <= text@.len(),
    ensures
        yes == (forall|j: int| from <= j < to ==> text@[j] == '0'),
{
    let mut i: usize = from;
    while i < to
        invariant
            from <= i <= to <= text@.len(),
            forall|j: int| from <= j < i ==> text@[j] == '0',
        decreases to - i,
    {
        if text.get_char(i) != '0' {
            return false;
        }
        i += 1;
    }
    true
}

/// Writes the digits from `from` up to `to` after a number that is held
/// capped at 2^64, and caps the result in the same way.
fn add_digits(text: &str, from: usize, to: usize, sum: u128, Ghost(value): Ghost<nat>) -> (out:
    u128)
    requires
        from <= to <= text@.len(),
        all_digits(text@.subrange(from as int, to as int)),
        sum == capped(value),
    ensures
        out == capped(digits_after(value, text@.subrange(from as int, to as int))),
{
    let ghost part = text@.subrange(from as int, to as int);
    let mut sum = sum;
    let mut i: usize = from;
    while i < to
        invariant
            from <= i <= to <= text@.len(),
            part == text@.subrange(from as int, to as int),
            all_digits(part),
            sum == capped(digits_after(value, part.take(i - from))),
        decreases to - i,
    {
        let c = text.get_char(i);
        assert(part[i - from] == c);
        assert(is_digit(c));
        assert(part.take(i - from + 1).drop_last() =~= part.take(i - from));
        let digit = (c as u32 - '0' as u32) as u128;
        let next = sum * 10 + digit;
        sum = if next < 0x1_0000_0000_0000_0000 {
            next
        } else {
            0x1_0000_0000_0000_0000
        };
        i += 1;
    }
    assert(part.take(i - from) =~= part);
    sum
}

/// Writes `count` zeros after a number that is held capped at 2^64, and
/// caps the result in the same way.
fn add_zeros(sum: u128, count: usize, Ghost(value): Ghost<nat>) -> (out: u128)
    requires
        sum == capped(value),
    ensures
        out == capped(digits_after(value, Seq::new(count as nat, |j: int| '0'))),
{
    let ghost zeros = Seq::new(count as nat, |j: int| '0');
    let mut sum = sum;
    let mut i: usize = 0;
    while i < count
        invariant
            i <= count,
            zeros == Seq::new(count as nat, |j: int| '0'),
            sum == capped(digits_after(value, zeros.take(i as int))),
        decreases count - i,
    {
        assert(zeros.take(i + 1).drop_last() =~= zeros.take(i as int));
        assert(zeros.take(i + 1).last() == '0');
        let next = sum * 10;
        sum = if next < 0x1_0000_0000_0000_0000 {
            next
        } else {
            0x1_0000_0000_0000_0000
        };
        i += 1;
    }
    assert(zeros.take(i as int) =~= zeros);
    sum
}

/// The first `width` digits of a fraction, with zeros where it has fewer.
pub open spec fn padded(fraction: Seq<char>, width: nat) -> Seq<char> {
    Seq::new(
        width,
        |i: int|
            if i < fraction.len() {
                fraction[i]
            } else {
                '0'
            },
    )
}

/// True when the fraction has nothing but zeros after its first `width`
/// digits, so that the number is whole in a unit with that many places.
pub open spec fn fits_places(fraction: Seq<char>, width: nat) -> bool {
    forall|i: int| width <= i < fraction.len() ==> #[trigger] fraction[i] == '0'
}

/// The time that a number and a unit suffix stand for, in picoseconds, or
/// the reason why they stand for none. A time beyond 64 bits counts as the
/// largest that 64 bits hold.
pub open spec fn parts_time(number: Seq<char>, unit: Seq<char>) -> Result<nat, ParseTimeErrorKind> {
    if !is_number(number) {
        Err(ParseTimeErrorKind::Number)
    } else {
        match unit_named(unit) {
            None => Err(ParseTimeErrorKind::Unit),
            Some(TimeUnit::FS) => Err(ParseTimeErrorKind::Femtosecond),
            Some(named) => {
                let width = places(named);
                let fraction = fraction_part(number);
                let exact = digits_value(whole_part(number) + padded(fraction, width));
                if !fits_places(fraction, width) {
                    Err(ParseTimeErrorKind::Fraction)
                } else if exact > u64::MAX {
                    Ok(u64::MAX as nat)
                } else {
                    Ok(exact)
                }
            },
        }
    }
}

/// The time that a text stands for: white space at the ends aside, a
/// decimal number followed by a unit, with white space allowed around the
/// unit.
pub open spec fn text_time(text: Seq<char>) -> Result<nat, ParseTimeErrorKind> {
    let inner = trimmed(text);
    let end = number_end(inner, 0);
    if inner.len() == 0 {
        Err(ParseTimeErrorKind::Empty)
    } else if end >= inner.len() {
        Err(ParseTimeErrorKind::Split)
    } else {
        parts_time(inner.take(end), trimmed(inner.skip(end)))
    }
}

/// True when the outcome of parsing is the expected one.
pub open spec fn parsed_as(
    outcome: Result<Time, ParseTimeError>,
    expected: Result<nat, ParseTimeErrorKind>,
) -> bool {
    match outcome {
        Ok(time) => expected == Ok::<nat, ParseTimeErrorKind>(time@),
        Err(error) => expected == Err::<nat, ParseTimeErrorKind>(error.kind),
    }
}

/// The largest rung of the zoom ladder that fits in 64 bits.
pub const TOP_STEP: u64 = 10_000_000_000_000_000_000;

impl Time {
    /// The time of `time` ticks of `unit`, rounded down to whole picoseconds.
    ///
    /// `None` when that count of picoseconds does not fit in 64 bits.
    pub fn new(time: u64, unit: TimeUnit) -> (made: Option<Time>)
        ensures
            made is Some <==> scaled(time as nat, unit) <= u64::MAX,
            made matches Some(t) ==> t@ == scaled(time as nat, unit),
    {
        let divisor = unit_divisor(unit);
        let product: u128 = time as u128 * 1_000_000_000_000u128;
        let quotient: u128 = product / (divisor as u128);
        if quotient > u64::MAX as u128 {
            None
        } else {
            Some(Time { time: quotient as u64 })
        }
    }

    /// Moves the time later by `time_inc` picoseconds, stopping at the
    /// largest time that 64 bits hold.
    pub fn increase(&mut self, time_inc: u64)
        ensures
            final(self)@ == if old(self)@ + time_inc <= u64::MAX {
                old(self)@ + time_inc
            } else {
                u64::MAX as int
            },
    {
        self.time = self.time.saturating_add(time_inc);
    }

    /// Moves the time earlier by `time_dec` picoseconds, stopping at zero.
    pub fn decrease(&mut self, time_dec: u64)
        ensures
            final(self)@ == if old(self)@ >= time_dec {
                old(self)@ - time_dec
            } else {
                0
            },
    {
        self.time = if self.time < time_dec {
            0
        } else {
            self.time - time_dec
        }
    }

    /// The number of picoseconds.
    pub fn time(&self) -> (t: u64)
        ensures
            t == self@,
    {
        self.time
    }

    /// The time that a decimal number and a unit suffix stand for.
    ///
    /// The number is digits with at most one decimal point; the unit is one
    /// of `s`, `ms`, `us`, `ns` and `ps`. The time must be a whole number of
    /// picoseconds.
    pub fn from_parts(number: &str, unit: &str) -> (outcome: Result<Time, ParseTimeError>)
        ensures
            parsed_as(outcome, parts_time(number@, unit@)),
    {
        let ghost text = number@;
        let len = number.unicode_len();
        let point = find_point(number);
        let first: usize = if point < len {
            point + 1
        } else {
            len
        };
        let ghost whole = whole_part(text);
        let ghost fraction = fraction_part(text);
        assert(whole =~= text.subrange(0, point as int));
        assert(fraction =~= text.subrange(first as int, len as int));
        if !all_digits_in(number, 0, point) || !all_digits_in(number, first, len) || point + (len
            - first) == 0 {
            return Err(ParseTimeError { kind: ParseTimeErrorKind::Number });
        }
        let named = match unit_from_text(unit) {
            None => {
                return Err(ParseTimeError { kind: ParseTimeErrorKind::Unit });
            },
            Some(TimeUnit::FS) => {
                return Err(ParseTimeError { kind: ParseTimeErrorKind::Femtosecond });
            },
            Some(named) => named,
        };
        let width: usize = match named {
            TimeUnit::S => 12,
            TimeUnit::MS => 9,
            TimeUnit::US => 6,
            TimeUnit::NS => 3,
            _ => 0,
        };
        let kept: usize = if len - first < width {
            len - first
        } else {
            width
        };
        if !zeros_in(number, first + kept, len) {
            assert(!fits_places(fraction, width as nat)) by {
                let j = choose|j: int| first + kept <= j < len && text[j] != '0';
                assert(fraction[j - first] == text[j]);
            }
            return Err(ParseTimeError { kind: ParseTimeErrorKind::Fraction });
        }
        assert(fits_places(fraction, width as nat)) by {
            assert forall|j: int| width <= j < fraction.len() implies #[trigger] fraction[j]
                == '0' by {
                assert(fraction[j] == text[j + first]);
            }
        }
        let ghost head = text.subrange(first as int, first + kept);
        let ghost tail = Seq::new((width - kept) as nat, |j: int| '0');
        let sum = add_digits(number, 0, point, 0, Ghost(0));
        assert(text.subrange(first as int, len as int).subrange(0, kept as int) =~= head);
        assert(all_digits(head)) by {
            assert forall|j: int| 0 <= j < head.len() implies is_digit(#[trigger] head[j]) by {
                assert(head[j] == fraction[j]);
            }
        }
        let sum = add_digits(number, first, first + kept, sum, Ghost(digits_value(whole)));
        let sum = add_zeros(
            sum,
            width - kept,
            Ghost(digits_after(digits_value(whole), head)),
        );
        proof {
            assert(padded(fraction, width as nat) =~= head + tail);
            lemma_digits_after_concat(digits_value(whole), head, tail);
            lemma_digits_after_concat(0, whole, head + tail);
        }
        if sum > u64::MAX as u128 {
            Ok(Time { time: u64::MAX })
        } else {
            Ok(Time { time: sum as u64 })
        }
    }

    /// The time that a text such as `100ns`, `100 ns` or `0.5us` stands for.
    pub fn from_str(s: &str) -> (outcome: Result<Time, ParseTimeError>)
        ensures
            parsed_as(outcome, text_time(s@)),
    {
        let inner = trim(s);
        let len = inner.unicode_len();
        if len == 0 {
            return Err(ParseTimeError { kind: ParseTimeErrorKind::Empty });
        }
        let mut end: usize = 0;
        while end < len && Time::is_numeric_char(inner.get_char(end))
            invariant
                end <= len,
                len == inner@.len(),
                number_end(inner@, end as int) == number_end(inner@, 0),
            decreases len - end,
        {
            end += 1;
        }
        if end >= len {
            return Err(ParseTimeError { kind: ParseTimeErrorKind::Split });
        }
        let number = inner.substring_char(0, end);
        let unit = trim(inner.substring_char(end, len));
        assert(inner@.subrange(0, end as int) =~= inner@.take(end as int));
        assert(inner@.subrange(end as int, len as int) =~= inner@.skip(end as int));
        Time::from_parts(number, unit)
    }

    /// Whether a character is a digit or the decimal point.
    fn is_numeric_char(c: char) -> (yes: bool)
        ensures
            yes == is_numeric(c),
    {
        (c >= '0' && c <= '9') || c == '.'
    }

    /// Check if the given string is a valid time.
    /// E.g. "100ns" or "100 ns" is a valid time.
    pub fn is_valid(s: &str) -> (outcome: Result<(), ParseTimeError>)
        ensures
            outcome is Ok <==> text_time(s@) is Ok,
            outcome matches Err(error) ==> text_time(s@) == Err::<nat, ParseTimeErrorKind>(
                error.kind,
            ),
    {
        match Time::from_str(s) {
            Ok(_) => Ok(()),
            Err(e) => Err(e),
        }
    }

    /// The text of the time in its display unit, such as `100ns` or `1.5us`.
    pub fn display(&self) -> (text: String)
        ensures
            text@ == display_text(self@),
    {
        let t = self.time;
        let (unit, scale, width): (TimeUnit, u64, u32) = if t >= 1_000_000_000_000 {
            (TimeUnit::S, 1_000_000_000_000, 12)
        } else if t >= 1_000_000_000 {
            (TimeUnit::MS, 1_000_000_000, 9)
        } else if t >= 1_000_000 {
            (TimeUnit::US, 1_000_000, 6)
        } else if t >= 1_000 {
            (TimeUnit::NS, 1_000, 3)
        } else {
            (TimeUnit::PS, 1, 0)
        };
        proof {
            reveal_with_fuel(pow10, 13);
            reveal_strlit(".");
        }
        assert(scale == pow10(width as nat));
        let mut text = decimal_string(t / scale);
        let mut rest = t % scale;
        if rest != 0 {
            text.append(".");
            let mut place = scale;
            let mut left = width;
            let ghost head = text@;
            while rest != 0
                invariant
                    place == pow10(left as nat),
                    rest < place,
                    left <= 12,
                    head + fraction_digits((t % scale) as nat, width as nat) == text@ + fraction_digits(
                        rest as nat,
                        left as nat,
                    ),
                decreases left,
            {
                proof {
                    lemma_pow10_positive((left - 1) as nat);
                }
                assert(left > 0);
                place = place / 10;
                left = left - 1;
                let ghost before = text@;
                let digit = rest / place;
                assert(digit < 10) by (nonlinear_arith)
                    requires
                        rest < 10 * place,
                        digit == rest / place,
                        place > 0,
                ;
                text.append(digit_str(digit));
                assert(before + fraction_digits(rest as nat, (left + 1) as nat) =~= text@
                    + fraction_digits((rest % place) as nat, left as nat));
                rest = rest % place;
            }
            assert(text@ =~= head + fraction_digits((t % scale) as nat, width as nat));
        }
        let suffix = unit_text(unit);
        text.append(suffix.as_str());
        assert(text@ =~= display_text(self@));
        text
    }

    /// Whether the time is a number below 1000 followed by groups of three
    /// zeros, so that [`Time::formulate`] can reduce it.
    pub fn is_aligned(&self) -> (yes: bool)
        ensures
            yes == aligned(self@),
    {
        let mut t = self.time;
        while t >= 1000
            invariant
                aligned(t as nat) == aligned(self@),
            decreases t,
        {
            if t % 1000 != 0 {
                return false;
            }
            t /= 1000;
        }
        true
    }

    /// The time with its groups of three trailing zeros removed: the number
    /// below 1000 that leads it.
    pub fn formulate(&self) -> (t: u64)
        requires
            aligned(self@),
        ensures
            t == leading(self@),
            t < 1000,
    {
        let mut t = self.time;
        while t >= 1000
            invariant
                aligned(t as nat),
                leading(t as nat) == leading(self@),
            decreases t,
        {
            t /= 1000;
        }
        t
    }

    /// Whether the time is a rung of the zoom ladder.
    pub fn is_on_ladder(&self) -> (yes: bool)
        ensures
            yes == on_ladder(self@),
    {
        proof {
            lemma_ladder_by_leading(self@);
        }
        if !self.is_aligned() {
            return false;
        }
        match self.formulate() {
            1 | 10 | 100 | 5 | 50 | 500 => true,
            _ => false,
        }
    }

    /// Steps down one rung of the zoom ladder; the lowest rung stays.
    pub fn step_decrease(&mut self)
        requires
            on_ladder(old(self)@),
        ensures
            final(self)@ == prev_step(old(self)@),
            on_ladder(final(self)@),
    {
        proof {
            lemma_ladder_by_leading(self@);
            lemma_prev_step_on_ladder(self@);
        }
        self.time = match self.formulate() {
            1 | 10 | 100 => if self.time / 2 < 1 {
                1
            } else {
                self.time / 2
            },
            _ => self.time / 5,
        }
    }

    /// Steps up one rung of the zoom ladder.
    pub fn step_increase(&mut self)
        requires
            on_ladder(old(self)@),
            old(self)@ < TOP_STEP,
        ensures
            final(self)@ == next_step(old(self)@),
            on_ladder(final(self)@),
    {
        proof {
            lemma_ladder_by_leading(self@);
            lemma_next_step_on_ladder(self@);
            lemma_ladder_below_top(self@);
        }
        self.time = match self.formulate() {
            1 | 10 | 100 => self.time * 5,
            _ => self.time * 2,
        }
    }
}

/// A power of a thousand times a number below 1000 is aligned and led by
/// that number.
pub proof fn lemma_leading_of_thousands(m: nat, k: nat)
    requires
        0 < m < 1000,
    ensures
        aligned(m * pow10(3 * k)),
        leading(m * pow10(3 * k)) == m,
    decreases k,
{
    if k == 0 {
        assert(pow10(0) == 1);
        assert(m * pow10(0) == m) by (nonlinear_arith)
            requires
                pow10(0) == 1,
        ;
    } else {
        lemma_leading_of_thousands(m, (k - 1) as nat);
        let inner = pow10((3 * (k - 1)) as nat);
        reveal_with_fuel(pow10, 4);
        assert(pow10(3 * k) == 1000 * inner);
        assert(m * pow10(3 * k) == 1000 * (m * inner)) by (nonlinear_arith)
            requires
                pow10(3 * k) == 1000 * inner,
        ;
        assert(inner >= 1) by {
            lemma_pow10_positive((3 * (k - 1)) as nat);
        }
        assert(m * inner >= 1) by (nonlinear_arith)
            requires
                m >= 1,
                inner >= 1,
        ;
    }
}

/// Powers of ten are positive.
pub proof fn lemma_pow10_positive(j: nat)
    ensures
        pow10(j) >= 1,
    decreases j,
{
    if j > 0 {
        lemma_pow10_positive((j - 1) as nat);
    }
}

/// An aligned time is its leading number times a power of a thousand.
pub proof fn lemma_aligned_is_thousands(t: nat) -> (k: nat)
    requires
        aligned(t),
    ensures
        t == leading(t) * pow10(3 * k),
    decreases t,
{
    if t < 1000 {
        assert(t * pow10(0) == t) by (nonlinear_arith)
            requires
                pow10(0) == 1,
        ;
        0
    } else {
        let k = lemma_aligned_is_thousands(t / 1000);
        let inner = pow10(3 * k);
        reveal_with_fuel(pow10, 4);
        assert(pow10(3 * (k + 1)) == 1000 * inner);
        assert(leading(t) * pow10(3 * (k + 1)) == 1000 * (leading(t / 1000) * inner))
            by (nonlinear_arith)
            requires
                pow10(3 * (k + 1)) == 1000 * inner,
                leading(t) == leading(t / 1000),
        ;
        k + 1
    }
}

/// The exponent `j` split into a multiple of three and a rest below three.
proof fn lemma_pow10_split(j: nat)
    ensures
        pow10(j) == pow10(j % 3) * pow10((3 * (j / 3)) as nat),
        pow10(j % 3) == 1 || pow10(j % 3) == 10 || pow10(j % 3) == 100,
    decreases j,
{
    reveal_with_fuel(pow10, 4);
    if j < 3 {
        assert(pow10(0) == 1);
        assert(pow10(j) * 1 == pow10(j));
    } else {
        lemma_pow10_split((j - 3) as nat);
        let rest = pow10(j % 3);
        let inner = pow10((3 * ((j - 3) / 3)) as nat);
        assert((j - 3) % 3 == j % 3);
        assert((j - 3) / 3 == j / 3 - 1);
        assert(pow10((3 * (j / 3)) as nat) == 1000 * inner);
        assert(pow10(j) == 1000 * pow10((j - 3) as nat));
        assert(1000 * (rest * inner) == rest * (1000 * inner)) by (nonlinear_arith);
    }
}

/// The rungs of the zoom ladder are the aligned times led by 1, 10 or 100
/// (the powers of ten) or by 5, 50 or 500 (five times a power of ten).
pub proof fn lemma_ladder_by_leading(t: nat)
    ensures
        is_decade(t) <==> aligned(t) && (leading(t) == 1 || leading(t) == 10 || leading(t) == 100),
        is_half_decade(t) <==> aligned(t) && (leading(t) == 5 || leading(t) == 50 || leading(t)
            == 500),
{
    if is_decade(t) {
        let j = choose|j: nat| t == #[trigger] pow10(j);
        lemma_pow10_split(j);
        lemma_leading_of_thousands(pow10(j % 3), j / 3);
    }
    if is_half_decade(t) {
        let j = choose|j: nat| t == 5 * #[trigger] pow10(j);
        lemma_pow10_split(j);
        let rest = pow10(j % 3);
        let inner = pow10((3 * (j / 3)) as nat);
        assert(5 * (rest * inner) == (5 * rest) * inner) by (nonlinear_arith);
        lemma_leading_of_thousands(5 * rest, j / 3);
    }
    if aligned(t) {
        let k = lemma_aligned_is_thousands(t);
        let inner = pow10(3 * k);
        reveal_with_fuel(pow10, 4);
        lemma_pow10_shift(3 * k, 1);
        lemma_pow10_shift(3 * k, 2);
        if leading(t) == 1 {
            assert(1 * inner == inner);
            assert(t == pow10(3 * k));
        } else if leading(t) == 10 {
            assert(t == pow10(3 * k + 1));
        } else if leading(t) == 100 {
            assert(t == pow10(3 * k + 2));
        } else if leading(t) == 5 {
            assert(t == 5 * pow10(3 * k));
        } else if leading(t) == 50 {
            assert(50 * inner == 5 * (10 * inner)) by (nonlinear_arith);
            assert(t == 5 * pow10(3 * k + 1));
        } else if leading(t) == 500 {
            assert(500 * inner == 5 * (100 * inner)) by (nonlinear_arith);
            assert(t == 5 * pow10(3 * k + 2));
        }
    }
}

/// Raising the exponent by one or two multiplies by ten or a hundred.
proof fn lemma_pow10_shift(j: nat, d: nat)
    requires
        d <= 2,
    ensures
        d == 1 ==> pow10(j + 1) == 10 * pow10(j),
        d == 2 ==> pow10(j + 2) == 100 * pow10(j),
{
    reveal_with_fuel(pow10, 3);
}

/// The rung above a rung is a rung.
pub proof fn lemma_next_step_on_ladder(t: nat)
    requires
        on_ladder(t),
    ensures
        on_ladder(next_step(t)),
        is_decade(t) ==> is_half_decade(next_step(t)),
        !is_decade(t) ==> is_decade(next_step(t)),
{
    if is_decade(t) {
        let j = choose|j: nat| t == #[trigger] pow10(j);
        assert(next_step(t) == 5 * pow10(j));
    } else {
        let j = choose|j: nat| t == 5 * #[trigger] pow10(j);
        assert(next_step(t) == pow10(j + 1));
    }
}

/// The rung below a rung is a rung.
pub proof fn lemma_prev_step_on_ladder(t: nat)
    requires
        on_ladder(t),
    ensures
        on_ladder(prev_step(t)),
{
    if t == 1 {
        assert(t == pow10(0));
    } else if is_decade(t) {
        let j = choose|j: nat| t == #[trigger] pow10(j);
        assert(j > 0);
        assert(t / 2 == 5 * pow10((j - 1) as nat));
    } else {
        let j = choose|j: nat| t == 5 * #[trigger] pow10(j);
        assert(t / 5 == pow10(j));
    }
}

/// A rung below the top rung can be stepped up within 64 bits.
pub proof fn lemma_ladder_below_top(t: nat)
    requires
        on_ladder(t),
        t < TOP_STEP,
    ensures
        next_step(t) <= TOP_STEP,
{
    lemma_ladder_by_leading(t);
    lemma_next_step_on_ladder(t);
    lemma_top_is_decade();
    if is_decade(t) {
        lemma_decades_apart(t, TOP_STEP as nat);
    } else {
        let j = choose|j: nat| t == 5 * #[trigger] pow10(j);
        assert(is_decade(pow10(j)));
        lemma_decades_apart(pow10(j), TOP_STEP as nat);
    }
}

/// The top rung is ten to the nineteenth.
proof fn lemma_top_is_decade()
    ensures
        is_decade(TOP_STEP as nat),
{
    reveal_with_fuel(pow10, 20);
    assert(TOP_STEP as nat == pow10(19));
}

/// Of two powers of ten, the smaller is at most a tenth of the larger.
proof fn lemma_decades_apart(a: nat, b: nat)
    requires
        is_decade(a),
        is_decade(b),
        a < b,
    ensures
        10 * a <= b,
{
    let i = choose|i: nat| a == #[trigger] pow10(i);
    let j = choose|j: nat| b == #[trigger] pow10(j);
    if j <= i {
        lemma_pow10_grows(j, i);
    } else {
        lemma_pow10_grows(i + 1, j);
    }
}

/// Powers of ten grow with the exponent.
proof fn lemma_pow10_grows(i: nat, j: nat)
    requires
        i <= j,
    ensures
        pow10(i) <= pow10(j),
    decreases j,
{
    if i < j {
        lemma_pow10_grows(i, (j - 1) as nat);
    }
}

/// The character of a digit is a digit and stands for it.
pub proof fn lemma_digit_char(d: nat)
    requires
        d < 10,
    ensures
        is_digit(digit_char(d)),
        digit_value(digit_char(d)) == d,
{
    assert('0' as nat == 48 && '1' as nat == 49 && '2' as nat == 50 && '3' as nat == 51);
    assert('4' as nat == 52 && '5' as nat == 53 && '6' as nat == 54 && '7' as nat == 55);
    assert('8' as nat == 56 && '9' as nat == 57);
}

/// The decimal text of a number is made of digits and spells that number.
pub proof fn lemma_decimal_spells(n: nat)
    ensures
        all_digits(decimal(n)),
        decimal(n).len() >= 1,
        digits_value(decimal(n)) == n,
    decreases n,
{
    lemma_digit_char(n % 10);
    reveal_with_fuel(digits_after, 2);
    if n >= 10 {
        lemma_decimal_spells(n / 10);
        let head = decimal(n / 10);
        assert(decimal(n).last() == digit_char(n % 10));
        assert(decimal(n).drop_last() =~= head);
        assert forall|i: int| 0 <= i < decimal(n).len() implies is_digit(
            #[trigger] decimal(n)[i],
        ) by {
            if i < head.len() {
                assert(decimal(n)[i] == head[i]);
            }
        }
    } else {
        assert(decimal(n).drop_last() =~= Seq::<char>::empty());
    }
}

/// Writing zeros after a number multiplies it by a power of ten.
pub proof fn lemma_zeros_scale(value: nat, count: nat)
    ensures
        digits_after(value, padded(Seq::empty(), count)) == value * pow10(count),
    decreases count,
{
    let zeros = padded(Seq::empty(), count);
    if count == 0 {
        assert(value * pow10(0) == value) by (nonlinear_arith)
            requires
                pow10(0) == 1,
        ;
    } else {
        lemma_zeros_scale(value, (count - 1) as nat);
        assert(zeros.drop_last() =~= padded(Seq::empty(), (count - 1) as nat));
        let inner = pow10((count - 1) as nat);
        assert(10 * (value * inner) == value * (10 * inner)) by (nonlinear_arith);
    }
}

/// The fraction digits of `rest` in `width` places are digits, at most
/// `width` of them, and written after a number, filled up with zeros to
/// `width` places, they add `rest` to that number times ten to the `width`.
pub proof fn lemma_fraction_spells(value: nat, rest: nat, width: nat)
    requires
        rest < pow10(width),
    ensures
        all_digits(fraction_digits(rest, width)),
        fraction_digits(rest, width).len() <= width,
        digits_after(value, padded(fraction_digits(rest, width), width)) == value * pow10(width)
            + rest,
    decreases width,
{
    let digits = fraction_digits(rest, width);
    if rest == 0 || width == 0 {
        assert(digits =~= Seq::<char>::empty());
        lemma_zeros_scale(value, width);
    } else {
        let place = pow10((width - 1) as nat);
        lemma_pow10_positive((width - 1) as nat);
        let digit = rest / place;
        let tail = fraction_digits(rest % place, (width - 1) as nat);
        assert(digit < 10) by (nonlinear_arith)
            requires
                rest < 10 * place,
                digit == rest / place,
                place > 0,
        ;
        assert(rest % place < place) by (nonlinear_arith)
            requires
                place > 0,
        ;
        lemma_fraction_spells(10 * value + digit, rest % place, (width - 1) as nat);
        assert forall|i: int| 0 <= i < digits.len() implies is_digit(#[trigger] digits[i]) by {
            if i > 0 {
                assert(digits[i] == tail[i - 1]);
            }
        }
        lemma_digit_char(digit);
        reveal_with_fuel(digits_after, 2);
        let first = seq![digit_char(digit)];
        assert(padded(digits, width) =~= first + padded(tail, (width - 1) as nat));
        lemma_digits_after_concat(value, first, padded(tail, (width - 1) as nat));
        assert(first.drop_last() =~= Seq::<char>::empty());
        assert(digits_after(value, first) == 10 * value + digit);
        assert(rest == digit * place + rest % place) by (nonlinear_arith)
            requires
                digit == rest / place,
                place > 0,
        ;
        assert((10 * value + digit) * place == value * (10 * place) + digit * place)
            by (nonlinear_arith);
    }
}

/// In a text that starts with digits, the first decimal point is not among
/// them.
pub proof fn lemma_point_after_digits(digits: Seq<char>, rest: Seq<char>, from: int)
    requires
        all_digits(digits),
        0 <= from <= digits.len(),
        rest.len() == 0 || rest[0] == '.',
    ensures
        point_at(digits + rest, from) == digits.len(),
    decreases digits.len() - from,
{
    let text = digits + rest;
    if from < digits.len() {
        assert(text[from] == digits[from]);
        assert(is_digit(digits[from]));
        lemma_point_after_digits(digits, rest, from + 1);
    } else if rest.len() > 0 {
        assert(text[from] == rest[0]);
    }
}

/// Each unit is named by its own suffix.
pub proof fn lemma_suffix_names_unit(unit: TimeUnit)
    ensures
        unit_named(unit_suffix(unit)) == Some(unit),
{
    let s = unit_suffix(TimeUnit::S);
    let ms = unit_suffix(TimeUnit::MS);
    let us = unit_suffix(TimeUnit::US);
    let ns = unit_suffix(TimeUnit::NS);
    let ps = unit_suffix(TimeUnit::PS);
    let fs = unit_suffix(TimeUnit::FS);
    assert(s.len() == 1 && ms.len() == 2);
    assert(ms[0] == 'm' && us[0] == 'u' && ns[0] == 'n' && ps[0] == 'p' && fs[0] == 'f');
}

/// The text of a time parses back to that time: its number and the suffix
/// of its unit stand for exactly the time that was shown.
pub proof fn lemma_display_parses_back(t: nat)
    requires
        t <= u64::MAX,
    ensures
        parts_time(display_number(t), unit_suffix(display_unit(t))) == Ok::<
            nat,
            ParseTimeErrorKind,
        >(t),
{
    let unit = display_unit(t);
    let width = places(unit);
    let scale = pow10(width);
    reveal_with_fuel(pow10, 13);
    let whole = decimal(t / scale);
    let rest = t % scale;
    let number = display_number(t);
    lemma_suffix_names_unit(unit);
    lemma_decimal_spells(t / scale);
    lemma_fraction_spells(t / scale, rest, width);
    let fraction = fraction_digits(rest, width);
    if rest == 0 {
        lemma_point_after_digits(whole, Seq::empty(), 0);
        assert(whole + Seq::<char>::empty() =~= whole);
        assert(whole_part(number) =~= whole);
        assert(fraction_part(number) =~= Seq::<char>::empty());
        assert(fraction =~= Seq::<char>::empty());
    } else {
        let tail = seq!['.'] + fraction;
        lemma_point_after_digits(whole, tail, 0);
        assert(number =~= whole + tail);
        assert(whole_part(number) =~= whole);
        assert(fraction_part(number) =~= fraction);
    }
    lemma_digits_after_concat(0, whole, padded(fraction, width));
    assert(t == (t / scale) * scale + rest) by (nonlinear_arith)
        requires
            scale > 0,
            rest == t % scale,
    ;
}

/// Ten ticks of a unit are a rung of the zoom ladder, but for the
/// femtosecond, of which ten make no picosecond.
pub proof fn lemma_ten_units_on_ladder(unit: TimeUnit)
    ensures
        on_ladder(scaled(10, unit)) <==> unit != TimeUnit::FS,
        scaled(10, unit) <= u64::MAX,
{
    reveal_with_fuel(pow10, 14);
    lemma_ladder_by_leading(scaled(10, unit));
    match unit {
        TimeUnit::S => {
            assert(scaled(10, unit) == pow10(13));
        },
        TimeUnit::MS => {
            assert(scaled(10, unit) == pow10(10));
        },
        TimeUnit::US => {
            assert(scaled(10, unit) == pow10(7));
        },
        TimeUnit::NS => {
            assert(scaled(10, unit) == pow10(4));
        },
        TimeUnit::PS => {
            assert(scaled(10, unit) == pow10(1));
        },
        TimeUnit::FS => {
            assert(scaled(10, unit) == 0);
        },
    }
}

/// The rung that `n` steps up from one picosecond reach.
pub open spec fn rung(n: nat) -> nat
    decreases n,
{
    if n == 0 {
        1
    } else {
        next_step(rung((n - 1) as nat))
    }
}

/// Every value reached by stepping up from one picosecond is a rung of the
/// zoom ladder.
pub proof fn lemma_rungs_on_ladder(n: nat)
    ensures
        on_ladder(rung(n)),
    decreases n,
{
    if n == 0 {
        assert(rung(0) == pow10(0));
    } else {
        lemma_rungs_on_ladder((n - 1) as nat);
        lemma_next_step_on_ladder(rung((n - 1) as nat));
    }
}

/// Stepping up and then down from any rung of the zoom ladder returns to
/// that rung.
pub proof fn lemma_step_up_then_down(t: nat)
    requires
        on_ladder(t),
    ensures
        prev_step(next_step(t)) == t,
{
    lemma_next_step_on_ladder(t);
    lemma_ladder_by_leading(next_step(t));
    lemma_pow10_positive(0);
    if is_decade(t) {
        let j = choose|j: nat| t == #[trigger] pow10(j);
        lemma_pow10_positive(j);
    } else {
        let j = choose|j: nat| t == 5 * #[trigger] pow10(j);
        lemma_pow10_positive(j);
    }
}

} // verus!

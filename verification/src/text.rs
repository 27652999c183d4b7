//! Text: decimal numbers, joined paths, and events in debugging form.

use vstd::prelude::*;
use vstd::string::StringExecFns;
use crate::signal::{texts, Reading, Timeline, ValueType};
use crate::value::{
    binary_value, has_x_or_z, value_char, value_to_string, vector_chars, vector_to_base_10,
    vector_to_string, Value,
};

verus! {

/// The character of a decimal digit.
pub open spec fn digit_char(d: nat) -> char {
    if d == 0 {
        '0'
    } else if d == 1 {
        '1'
    } else if d == 2 {
        '2'
    } else if d == 3 {
        '3'
    } else if d == 4 {
        '4'
    } else if d == 5 {
        '5'
    } else if d == 6 {
        '6'
    } else if d == 7 {
        '7'
    } else if d == 8 {
        '8'
    } else {
        '9'
    }
}

/// The decimal digits of a number, most significant first, without leading
/// zeros; `0` for zero.
pub open spec fn decimal(n: nat) -> Seq<char>
    decreases n,
{
    if n < 10 {
        seq![digit_char(n)]
    } else {
        decimal(n / 10).push(digit_char(n % 10))
    }
}

/// The text of one decimal digit.
pub fn digit_str(d: u64) -> (s: &'static str)
    requires
        d < 10,
    ensures
        s@ == seq![digit_char(d as nat)],
{
    proof {
        reveal_strlit("0");
        reveal_strlit("1");
        reveal_strlit("2");
        reveal_strlit("3");
        reveal_strlit("4");
        reveal_strlit("5");
        reveal_strlit("6");
        reveal_strlit("7");
        reveal_strlit("8");
        reveal_strlit("9");
    }
    let s = match d {
        0 => "0",
        1 => "1",
        2 => "2",
        3 => "3",
        4 => "4",
        5 => "5",
        6 => "6",
        7 => "7",
        8 => "8",
        _ => "9",
    };
    assert(s@ =~= seq![digit_char(d as nat)]);
    s
}

/// The decimal text of a number.
pub fn decimal_string(n: u64) -> (s: String)
    ensures
        s@ == decimal(n as nat),
{
    let mut rest = n;
    let mut low: Vec<u64> = Vec::new();
    while rest >= 10
        invariant
            forall|j: int| 0 <= j < low.len() ==> #[trigger] low@[j] < 10,
            decimal(n as nat) == decimal(rest as nat) + Seq::new(
                low.len() as nat,
                |j: int| digit_char(low@[low.len() - 1 - j] as nat),
            ),
        decreases rest,
    {
        let ghost before = low@;
        low.push(rest % 10);
        assert(decimal(rest as nat) + Seq::new(
            before.len(),
            |j: int| digit_char(before[before.len() - 1 - j] as nat),
        ) =~= decimal((rest / 10) as nat) + Seq::new(
            low.len() as nat,
            |j: int| digit_char(low@[low.len() - 1 - j] as nat),
        ));
        rest = rest / 10;
    }
    let mut s = String::new();
    s.append(digit_str(rest));
    let mut k: usize = low.len();
    while k > 0
        invariant
            k <= low.len(),
            forall|j: int| 0 <= j < low.len() ==> #[trigger] low@[j] < 10,
            s@ == decimal(rest as nat) + Seq::new(
                (low.len() - k) as nat,
                |j: int| digit_char(low@[low.len() - 1 - j] as nat),
            ),
        decreases k,
    {
        k -= 1;
        let ghost before = s@;
        s.append(digit_str(low[k]));
        assert(s@ =~= decimal(rest as nat) + Seq::new(
            (low.len() - k) as nat,
            |j: int| digit_char(low@[low.len() - 1 - j] as nat),
        ));
    }
    s
}

/// The name of a logic value in debugging text.
pub open spec fn value_debug(v: Value) -> Seq<char> {
    match v {
        Value::V0 => "V0"@,
        Value::V1 => "V1"@,
        Value::X => "X"@,
        Value::Z => "Z"@,
    }
}

/// A signal value in debugging text: `Value(V1)`, `Vector(Vector(01xz))`.
pub open spec fn reading_debug(reading: Reading) -> Seq<char> {
    match reading {
        Reading::Bit(v) => "Value("@ + value_debug(v) + ")"@,
        Reading::Bits(bits) => "Vector(Vector("@ + vector_chars(bits) + "))"@,
    }
}

/// One event in debugging text: `(25, Value(V1))`.
pub open spec fn event_debug(event: (u64, Reading)) -> Seq<char> {
    "("@ + decimal(event.0 as nat) + ", "@ + reading_debug(event.1) + ")"@
}

/// The first `n` events in debugging text, separated by `, `.
pub open spec fn events_listed(events: Timeline, n: int) -> Seq<char>
    decreases n,
{
    if 0 < n <= events.len() {
        if n == 1 {
            event_debug(events[0])
        } else {
            events_listed(events, n - 1) + ", "@ + event_debug(events[n - 1])
        }
    } else {
        Seq::empty()
    }
}

/// A timeline in debugging text: `[(0, Value(V0)), (25, Value(V1))]`.
pub open spec fn events_debug(events: Timeline) -> Seq<char> {
    "["@ + events_listed(events, events.len() as int) + "]"@
}

/// Those of the first `n` events with a timestamp from `start` to `end`,
/// both included, each as `(` event `), `.
pub open spec fn events_between(events: Timeline, start: int, end: int, n: int) -> Seq<char>
    decreases n,
{
    if 0 < n <= events.len() {
        let before = events_between(events, start, end, n - 1);
        if start <= events[n - 1].0 <= end {
            before + "("@ + event_debug(events[n - 1]) + "), "@
        } else {
            before
        }
    } else {
        Seq::empty()
    }
}

/// A signal value as shown to a reader: a single bit as its character, a
/// vector as its decimal number, or `x` when it has none that 64 bits hold.
pub open spec fn reading_text(reading: Reading) -> Seq<char> {
    match reading {
        Reading::Bit(v) => seq![value_char(v)],
        Reading::Bits(bits) => if !has_x_or_z(bits) && binary_value(bits) <= u64::MAX {
            decimal(binary_value(bits))
        } else {
            "x"@
        },
    }
}

/// Appends one event in debugging text.
pub fn push_event_debug(text: &mut String, timestamp: u64, value: &ValueType)
    ensures
        final(text)@ == old(text)@ + event_debug((timestamp, value@)),
{
    let ghost before = text@;
    text.append("(");
    let number = decimal_string(timestamp);
    text.append(number.as_str());
    text.append(", ");
    match value {
        ValueType::Value(v) => {
            text.append("Value(");
            text.append(
                match v {
                    Value::V0 => "V0",
                    Value::V1 => "V1",
                    Value::X => "X",
                    Value::Z => "Z",
                },
            );
            text.append(")");
        },
        ValueType::Vector(bits) => {
            text.append("Vector(Vector(");
            let shown = vector_to_string(bits);
            text.append(shown.as_str());
            text.append("))");
        },
    }
    text.append(")");
    assert(text@ =~= before + event_debug((timestamp, value@)));
}

impl ValueType {
    /// The value as shown to a reader: a single bit as `0`, `1`, `x` or
    /// `z`, a vector as its decimal number, or `x` when it has none.
    pub fn display(&self) -> (text: String)
        ensures
            text@ == reading_text(self@),
    {
        match self {
            ValueType::Value(v) => value_to_string(*v),
            ValueType::Vector(bits) => match vector_to_base_10(bits) {
                Some(number) => decimal_string(number),
                None => String::from_str("x"),
            },
        }
    }
}

/// A list of names joined by a separator.
pub open spec fn joined(names: Seq<Seq<char>>, separator: Seq<char>) -> Seq<char>
    decreases names.len(),
{
    if names.len() == 0 {
        Seq::empty()
    } else if names.len() == 1 {
        names[0]
    } else {
        joined(names.drop_last(), separator) + separator + names.last()
    }
}

/// The separator between the names of a path.
pub open spec fn path_separator() -> Seq<char> {
    seq!['-', '>']
}

/// The text of a path: its names joined by `->`.
pub fn join_path(path: &Vec<String>) -> (text: String)
    ensures
        text@ == joined(texts(path@), path_separator()),
{
    let ghost names = texts(path@);
    let mut text = String::new();
    let mut i: usize = 0;
    while i < path.len()
        invariant
            i <= path.len(),
            names == texts(path@),
            text@ == joined(names.take(i as int), path_separator()),
        decreases path.len() - i,
    {
        proof {
            reveal_strlit("->");
            assert(names.take(i + 1).drop_last() =~= names.take(i as int));
            assert("->"@ =~= path_separator());
        }
        if i > 0 {
            text.append("->");
        }
        text.append(path[i].as_str());
        proof {
            if i == 0 {
                assert(text@ =~= names[0]);
            }
        }
        i += 1;
    }
    assert(names.take(i as int) =~= names);
    text
}

} // verus!

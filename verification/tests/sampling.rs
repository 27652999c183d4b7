use rata_wave::signal::{
    DisplayEvent, Signal, ValueDisplayEvent, ValueType, VectorDisplayEvent, WindowError,
};
use rata_wave::value::Value;

fn signal(events: Vec<(u64, ValueType)>) -> Signal {
    let size = match events.first() {
        Some((_, ValueType::Vector(bits))) => bits.len() as u32,
        _ => 1,
    };
    sized_signal(size, events)
}

fn sized_signal(size: u32, events: Vec<(u64, ValueType)>) -> Signal {
    let mut signal = Signal {
        code: String::from("!"),
        name: String::from("clk"),
        size,
        events: Vec::new(),
        scope_path: Vec::new(),
    };
    for (t, v) in events {
        signal.add_event(t, v);
    }
    signal
}

fn bit(v: Value) -> ValueType {
    ValueType::Value(v)
}

fn bits(text: &str) -> Vec<Value> {
    text.chars()
        .map(|c| match c {
            '0' => Value::V0,
            '1' => Value::V1,
            'x' => Value::X,
            _ => Value::Z,
        })
        .collect()
}

fn vector(text: &str) -> ValueType {
    ValueType::Vector(bits(text))
}

fn stay(v: Value) -> DisplayEvent {
    DisplayEvent::Value(ValueDisplayEvent::Stay(v))
}

fn change(v: Value) -> DisplayEvent {
    DisplayEvent::Value(ValueDisplayEvent::ChangeEvent(v))
}

fn stay_bits(text: &str) -> DisplayEvent {
    DisplayEvent::Vector(VectorDisplayEvent::Stay(bits(text)))
}

fn change_bits(text: &str) -> DisplayEvent {
    DisplayEvent::Vector(VectorDisplayEvent::ChangeEvent(bits(text)))
}

#[test]
fn single_bit_window_follows_the_changes() {
    let signal = signal(vec![(0, bit(Value::V0)), (25, bit(Value::V1))]);
    let cells = signal.events_arr_in_range(0, 10, 5).unwrap();
    assert_eq!(
        cells,
        vec![
            change(Value::V0),
            stay(Value::V0),
            change(Value::V1),
            stay(Value::V1),
            stay(Value::V1)
        ]
    );
}

#[test]
fn first_event_repeating_the_undefined_value_is_no_change() {
    let signal = signal(vec![(0, bit(Value::X)), (25, bit(Value::V1))]);
    let cells = signal.events_arr_in_range(0, 10, 3).unwrap();
    assert_eq!(cells, vec![stay(Value::X), stay(Value::X), change(Value::V1)]);
    let wide = sized_signal(2, vec![(3, vector("xx")), (12, vector("x"))]);
    let cells = wide.events_arr_in_range(0, 10, 2).unwrap();
    assert_eq!(cells, vec![stay_bits("xx"), change_bits("x")]);
}

#[test]
fn window_has_one_cell_for_each_bucket() {
    let signal = signal(vec![(3, bit(Value::V1)), (4, bit(Value::V0)), (90, bit(Value::Z))]);
    for count in [1usize, 2, 7, 100] {
        for width in [1u64, 3, 1000] {
            assert_eq!(signal.events_arr_in_range(2, width, count).unwrap().len(), count);
        }
    }
}

#[test]
fn no_events_show_undefined_everywhere() {
    let signal = signal(vec![]);
    let cells = signal.events_arr_in_range(17, 5, 6).unwrap();
    assert_eq!(cells, vec![stay(Value::X); 6]);
    assert_eq!(signal.undefined_value(), bit(Value::X));
    let none = sized_signal(0, vec![]);
    assert_eq!(none.events_arr_in_range(0, 1, 2).unwrap(), vec![stay(Value::X); 2]);
}

#[test]
fn no_events_of_a_vector_show_x_in_every_bit() {
    let signal = sized_signal(4, vec![]);
    let cells = signal.events_arr_in_range(0, 1000, 3).unwrap();
    assert_eq!(cells, vec![stay_bits("xxxx"); 3]);
    assert_eq!(signal.undefined_value(), vector("xxxx"));
}

#[test]
fn sampling_twice_gives_the_same_cells() {
    let signal = signal(vec![
        (0, vector("0000")),
        (7, vector("0001")),
        (8, vector("0010")),
        (30, vector("0010")),
        (31, vector("1xz0")),
    ]);
    let first = signal.events_arr_in_range(0, 4, 12).unwrap();
    let second = signal.events_arr_in_range(0, 4, 12).unwrap();
    assert_eq!(first, second);
}

#[test]
fn two_vector_events_in_one_bucket_are_multiple() {
    let signal = signal(vec![(0, vector("00")), (12, vector("01")), (17, vector("10"))]);
    let cells = signal.events_arr_in_range(0, 10, 4).unwrap();
    assert_eq!(
        cells,
        vec![
            change_bits("00"),
            DisplayEvent::Vector(VectorDisplayEvent::MultipleEvent),
            stay_bits("10"),
            stay_bits("10")
        ]
    );
}

#[test]
fn single_bit_multiple_then_one_event() {
    let signal = signal(vec![
        (1, bit(Value::V0)),
        (2, bit(Value::V1)),
        (3, bit(Value::V0)),
        (15, bit(Value::V0)),
        (25, bit(Value::V1)),
    ]);
    let cells = signal.events_arr_in_range(0, 10, 4).unwrap();
    assert_eq!(
        cells,
        vec![
            DisplayEvent::Value(ValueDisplayEvent::MultipleEvent),
            stay(Value::V0),
            change(Value::V1),
            stay(Value::V1)
        ]
    );
}

#[test]
fn event_at_a_bucket_end_belongs_to_the_next_bucket() {
    let signal = signal(vec![(0, bit(Value::V0)), (10, bit(Value::V1)), (20, bit(Value::V0))]);
    let cells = signal.events_arr_in_range(0, 10, 3).unwrap();
    assert_eq!(cells, vec![change(Value::V0), change(Value::V1), change(Value::V0)]);
}

#[test]
fn window_before_the_first_event_shows_the_undefined_value() {
    let signal = signal(vec![(50, bit(Value::V1)), (70, bit(Value::V0))]);
    let cells = signal.events_arr_in_range(0, 20, 5).unwrap();
    assert_eq!(
        cells,
        vec![
            stay(Value::X),
            stay(Value::X),
            change(Value::V1),
            change(Value::V0),
            stay(Value::V0)
        ]
    );
    let bus = signal_of_bits();
    let cells = bus.events_arr_in_range(0, 10, 3).unwrap();
    assert_eq!(cells, vec![stay_bits("xxx"), change_bits("101"), stay_bits("101")]);
}

fn signal_of_bits() -> Signal {
    sized_signal(3, vec![(15, vector("101"))])
}

#[test]
fn window_after_the_last_event_repeats_it() {
    let signal = signal(vec![(0, vector("01")), (5, vector("11"))]);
    let cells = signal.events_arr_in_range(100, 10, 3).unwrap();
    assert_eq!(cells, vec![stay_bits("11"), stay_bits("11"), stay_bits("11")]);
}

#[test]
fn window_starting_inside_the_events_carries_the_value_before() {
    let signal = signal(vec![(0, vector("01")), (5, vector("11")), (12, vector("11")), (23, vector("00"))]);
    let cells = signal.events_arr_in_range(10, 10, 2).unwrap();
    assert_eq!(cells, vec![stay_bits("11"), change_bits("00")]);
}

#[test]
fn equal_timestamps_supersede() {
    let signal = signal(vec![(5, bit(Value::V0)), (5, bit(Value::V1)), (30, bit(Value::V1))]);
    let cells = signal.events_arr_in_range(0, 10, 4).unwrap();
    assert_eq!(
        cells,
        vec![
            DisplayEvent::Value(ValueDisplayEvent::MultipleEvent),
            stay(Value::V1),
            stay(Value::V1),
            stay(Value::V1)
        ]
    );
}

#[test]
fn window_near_the_end_of_time_does_not_overflow() {
    let signal = signal(vec![(u64::MAX - 1, bit(Value::V0)), (u64::MAX, bit(Value::V1))]);
    let cells = signal.events_arr_in_range(u64::MAX - 3, 2, 4).unwrap();
    assert_eq!(
        cells,
        vec![
            stay(Value::X),
            DisplayEvent::Value(ValueDisplayEvent::MultipleEvent),
            stay(Value::V1),
            stay(Value::V1)
        ]
    );
    let wide = signal.events_arr_in_range(u64::MAX, u64::MAX, 3).unwrap();
    assert_eq!(wide, vec![change(Value::V1), stay(Value::V1), stay(Value::V1)]);
}

#[test]
fn degenerate_windows_are_errors() {
    let signal = signal(vec![(0, bit(Value::V0))]);
    assert_eq!(signal.events_arr_in_range(0, 0, 5), Err(WindowError::ZeroWidth));
    assert_eq!(signal.events_arr_in_range(0, 10, 0), Err(WindowError::ZeroCount));
    assert_eq!(signal.events_arr_in_range(0, 0, 0), Err(WindowError::ZeroWidth));
}

#[test]
fn cells_compare_with_values() {
    assert!(stay(Value::V1).eq(&bit(Value::V1)));
    assert!(change(Value::V1).eq(&bit(Value::V1)));
    assert!(!change(Value::V1).eq(&bit(Value::V0)));
    assert!(!DisplayEvent::Value(ValueDisplayEvent::MultipleEvent).eq(&bit(Value::V0)));
    assert!(stay_bits("01x").eq(&vector("01x")));
    assert!(change_bits("01x").eq(&vector("01x")));
    assert!(!stay_bits("01x").eq(&vector("01")));
    assert!(!stay_bits("1").eq(&bit(Value::V1)));
    assert!(!stay(Value::V1).eq(&vector("1")));
}

#[test]
fn values_copy_and_compare() {
    let v = vector("01xz");
    assert_eq!(v.copy(), v);
    assert!(v.same(&vector("01xz")));
    assert!(!v.same(&vector("01x")));
    assert!(!v.same(&vector("01x0")));
    assert!(!bit(Value::V1).same(&vector("1")));
    assert!(bit(Value::Z).same(&bit(Value::Z)));
    assert_eq!(change_bits("10").copy(), change_bits("10"));
    assert_eq!(stay(Value::X).copy(), stay(Value::X));
}

#[test]
fn names_and_paths_are_written_out() {
    let mut s = signal(vec![]);
    assert_eq!(s.output_name(), "clk(!)");
    assert_eq!(s.output_path(), "clk(!)");
    s.scope_path = vec![String::from("outer"), String::from("inner")];
    assert_eq!(s.output_path(), "outer->inner:clk(!)");
}

#[test]
fn events_are_dumped_as_text() {
    let s = signal(vec![(0, bit(Value::V0)), (25, bit(Value::V1)), (30, vector("01xz"))]);
    assert_eq!(
        s.output_events(),
        "[(0, Value(V0)), (25, Value(V1)), (30, Vector(Vector(01xz)))]"
    );
    assert_eq!(signal(vec![]).output_events(), "[]");
    assert_eq!(
        s.events_str_in_range(20, 5, 2),
        "((25, Value(V1))), ((30, Vector(Vector(01xz)))), "
    );
    assert_eq!(s.events_str_in_range(26, 1, 3), "");
    assert_eq!(s.events_str_in_range(0, u64::MAX, usize::MAX).len() > 0, true);
    assert_eq!(
        s.display(),
        "Signal: clk, code: !, events: [(0, Value(V0)), (25, Value(V1)), (30, Vector(Vector(01xz)))]\n"
    );
    assert_eq!(signal(vec![]).display(), "Signal: clk, code: !\n");
}

#[test]
fn values_are_shown_to_readers() {
    assert_eq!(bit(Value::V0).display(), "0");
    assert_eq!(bit(Value::Z).display(), "z");
    assert_eq!(vector("1010").display(), "10");
    assert_eq!(vector("0000").display(), "0");
    assert_eq!(vector("10x0").display(), "x");
    assert_eq!(vector("").display(), "0");
    assert_eq!(vector(&"1".repeat(64)).display(), "18446744073709551615");
    assert_eq!(vector(&"1".repeat(65)).display(), "x");
}

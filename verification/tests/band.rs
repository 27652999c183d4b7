use rata_wave::signal::{DisplayEvent, ValueDisplayEvent, VectorDisplayEvent};
use rata_wave::ui::{
    falling_edge, lines_from_cells, middle_str, rising_edge, value_string, Glyph, Tone, PLACEHOLDER,
};
use rata_wave::value::Value;

fn bits(text: &str) -> Vec<Value> {
    text.chars()
        .map(|c| match c {
            '0' => Value::V0,
            '1' => Value::V1,
            'x' => Value::X,
            _ => Value::Z,
        })
        .collect()
}

fn stay(v: Value) -> DisplayEvent {
    DisplayEvent::Value(ValueDisplayEvent::Stay(v))
}

fn change(v: Value) -> DisplayEvent {
    DisplayEvent::Value(ValueDisplayEvent::ChangeEvent(v))
}

fn many() -> DisplayEvent {
    DisplayEvent::Value(ValueDisplayEvent::MultipleEvent)
}

fn stay_bits(text: &str) -> DisplayEvent {
    DisplayEvent::Vector(VectorDisplayEvent::Stay(bits(text)))
}

fn change_bits(text: &str) -> DisplayEvent {
    DisplayEvent::Vector(VectorDisplayEvent::ChangeEvent(bits(text)))
}

fn many_bits() -> DisplayEvent {
    DisplayEvent::Vector(VectorDisplayEvent::MultipleEvent)
}

fn symbols(row: &[Glyph]) -> String {
    row.iter().map(|g| g.symbol).collect()
}

fn tones(row: &[Glyph]) -> Vec<Tone> {
    row.iter().map(|g| g.tone).collect()
}

#[test]
fn edges_have_their_symbols() {
    assert_eq!(rising_edge().first_line, '┌');
    assert_eq!(rising_edge().second_line, '┘');
    assert_eq!(falling_edge().first_line, '┐');
    assert_eq!(falling_edge().second_line, '└');
}

#[test]
fn single_bit_band_has_two_rows() {
    let cells = vec![
        stay(Value::V0),
        change(Value::V1),
        stay(Value::V1),
        change(Value::V0),
        many(),
        stay(Value::X),
        change(Value::Z),
        stay(Value::Z),
        change(Value::X),
    ];
    let rows = lines_from_cells(&cells).unwrap();
    assert_eq!(rows.len(), 2);
    assert_eq!(symbols(&rows[0]), " ┌─┐␩xzzx");
    assert_eq!(symbols(&rows[1]), "─┘ └␩xzzx");
    assert_eq!(tones(&rows[0]), vec![Tone::Green; 9]);
    assert_eq!(tones(&rows[1]), vec![Tone::Green; 9]);
}

#[test]
fn vector_band_centres_each_value_in_its_run() {
    let mut cells = vec![stay_bits("01"); 4];
    cells.push(change_bits("10"));
    cells.extend(vec![stay_bits("10"); 5]);
    let rows = lines_from_cells(&cells).unwrap();
    assert_eq!(rows.len(), 3);
    assert_eq!(symbols(&rows[0]), "────┬─────");
    assert_eq!(symbols(&rows[1]), " 01 │ 10  ");
    assert_eq!(symbols(&rows[2]), "────┴─────");
    assert_eq!(
        tones(&rows[1]),
        vec![
            Tone::Green,
            Tone::Plain,
            Tone::Plain,
            Tone::Plain,
            Tone::Green,
            Tone::Plain,
            Tone::Plain,
            Tone::Plain,
            Tone::Plain,
            Tone::Plain
        ]
    );
}

#[test]
fn run_at_the_start_and_run_at_the_end_get_text() {
    let cells = vec![
        stay_bits("1"),
        stay_bits("1"),
        stay_bits("1"),
        change_bits("0"),
        stay_bits("0"),
        stay_bits("0"),
        stay_bits("0"),
    ];
    let rows = lines_from_cells(&cells).unwrap();
    assert_eq!(symbols(&rows[1]), "  1│ 0 ");
}

#[test]
fn text_wider_than_its_run_becomes_placeholders() {
    let cells = vec![change_bits("0101"), stay_bits("0101"), stay_bits("0101")];
    let rows = lines_from_cells(&cells).unwrap();
    assert_eq!(symbols(&rows[0]), "┬──");
    assert_eq!(symbols(&rows[1]), "│␩␩");
    assert_eq!(symbols(&rows[2]), "┴──");
    let tight = vec![change_bits("01"), change_bits("10"), change_bits("11"), stay_bits("11")];
    let rows = lines_from_cells(&tight).unwrap();
    assert_eq!(symbols(&rows[1]), "│││␩");
}

#[test]
fn several_changes_inside_a_run_are_written_over() {
    let cells = vec![stay_bits("1"), many_bits(), stay_bits("0"), stay_bits("0")];
    let rows = lines_from_cells(&cells).unwrap();
    assert_eq!(symbols(&rows[0]), "─␩──");
    assert_eq!(symbols(&rows[1]), "  1 ");
    assert_eq!(symbols(&rows[2]), "─␩──");
    let leading = vec![many_bits(), many_bits(), change_bits("1"), stay_bits("1")];
    let rows = lines_from_cells(&leading).unwrap();
    assert_eq!(symbols(&rows[1]), "␩␩│1");
}

#[test]
fn steady_vectors_with_x_or_z_are_red() {
    let cells = vec![stay_bits("0x"), change_bits("01"), stay_bits("01"), stay_bits("z1")];
    let rows = lines_from_cells(&cells).unwrap();
    assert_eq!(tones(&rows[0]), vec![Tone::Red, Tone::Green, Tone::Green, Tone::Red]);
    assert_eq!(tones(&rows[2]), vec![Tone::Red, Tone::Green, Tone::Green, Tone::Red]);
    assert_eq!(tones(&rows[1]), vec![Tone::Red, Tone::Green, Tone::Plain, Tone::Plain]);
}

#[test]
fn no_cells_make_no_rows() {
    assert_eq!(lines_from_cells(&vec![]), Some(vec![]));
}

#[test]
fn single_bit_in_a_vector_band_cannot_be_drawn() {
    assert_eq!(lines_from_cells(&vec![stay_bits("1"), stay(Value::V1)]), None);
    assert_eq!(lines_from_cells(&vec![many_bits(), many()]), None);
}

#[test]
fn vector_in_a_single_bit_band_uses_its_upper_rows() {
    let rows = lines_from_cells(&vec![stay(Value::V1), change_bits("1"), stay_bits("1"), stay_bits("1")])
        .unwrap();
    assert_eq!(rows.len(), 2);
    assert_eq!(symbols(&rows[0]), "─┬──");
    assert_eq!(symbols(&rows[1]), " │ 1");
}

#[test]
fn middle_str_centres_or_gives_up() {
    assert_eq!(symbols(&middle_str(5, "10")), " 10  ");
    assert_eq!(symbols(&middle_str(4, "10")), " 10 ");
    assert_eq!(symbols(&middle_str(3, "10")), "10 ");
    assert_eq!(symbols(&middle_str(2, "10")), "10");
    assert_eq!(symbols(&middle_str(1, "10")), "␩");
    assert_eq!(symbols(&middle_str(0, "10")), "");
    assert_eq!(symbols(&middle_str(3, "")), "   ");
    assert_eq!(symbols(&middle_str(7, "101")), "  101  ");
    assert_eq!(middle_str(2, "1")[0], Glyph { symbol: ' ', tone: Tone::Plain });
    assert_eq!(middle_str(1, "10")[0], Glyph { symbol: PLACEHOLDER, tone: Tone::Plain });
}

#[test]
fn value_line_writes_each_cell() {
    let cells = vec![stay(Value::V0), change(Value::V1), many(), stay(Value::X), change(Value::Z)];
    assert_eq!(value_string(&cells), "01Txz");
    let vectors = vec![stay_bits("01"), many_bits(), change_bits("1x"), stay_bits("")];
    assert_eq!(value_string(&vectors), "01T1x");
    assert_eq!(value_string(&vec![]), "");
}

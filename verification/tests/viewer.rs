use rata_wave::app::{input_prompt, Action, App, AppMode, DrawError, Key};
use rata_wave::module::{load, Command, ScopeItem};
use rata_wave::signal::{Var, WindowError};
use rata_wave::time::TimeUnit;
use rata_wave::ui::Tone;
use rata_wave::value::Value;

fn viewer(unit: TimeUnit) -> App {
    let items = vec![
        ScopeItem::Var(Var { size: 1, code: "!".to_string(), reference: "clk".to_string() }),
        ScopeItem::Var(Var { size: 2, code: "#".to_string(), reference: "bus".to_string() }),
        ScopeItem::Var(Var { size: 1, code: "$".to_string(), reference: "odd".to_string() }),
    ];
    let commands = vec![
        Command::ChangeScalar("!".to_string(), Value::V0),
        Command::ChangeVector("#".to_string(), vec![Value::V0, Value::V1]),
        Command::ChangeVector("$".to_string(), vec![Value::V1]),
        Command::Timestamp(25_000),
        Command::ChangeScalar("!".to_string(), Value::V1),
        Command::ChangeScalar("$".to_string(), Value::V1),
        Command::Timestamp(40_000),
        Command::ChangeVector("#".to_string(), vec![Value::V1, Value::V1]),
    ];
    App::new(load(items, &commands).unwrap(), unit).unwrap()
}

fn press(app: &mut App, c: char) -> Action {
    app.handle_key_event(Key::Char(c), "")
}

#[test]
fn a_new_viewer_shows_a_hundred_cells_of_ten_units() {
    let app = viewer(TimeUnit::NS);
    assert_eq!(app.mode(), AppMode::Run);
    assert_eq!(app.time_start().time(), 0);
    assert_eq!(app.time_step().time(), 10_000);
    assert_eq!(app.arr_size(), 100);
    assert_eq!(app.module_root().get_signals().len(), 3);
    assert_eq!(viewer(TimeUnit::PS).time_step().time(), 10);
    assert_eq!(viewer(TimeUnit::S).time_step().time(), 10_000_000_000_000);
}

#[test]
fn femtoseconds_make_no_viewer() {
    let root = load(vec![], &vec![]).unwrap();
    assert!(App::new(root, TimeUnit::FS).is_none());
}

#[test]
fn zoom_keys_walk_the_ladder() {
    let mut app = viewer(TimeUnit::PS);
    assert_eq!(press(&mut app, '='), Action::Nothing);
    assert_eq!(app.time_step().time(), 5);
    press(&mut app, '=');
    assert_eq!(app.time_step().time(), 1);
    press(&mut app, '=');
    assert_eq!(app.time_step().time(), 1);
    press(&mut app, '-');
    press(&mut app, '-');
    press(&mut app, '-');
    assert_eq!(app.time_step().time(), 50);
    assert_eq!(app.mode(), AppMode::Run);
}

#[test]
fn zooming_out_stops_at_the_top_rung() {
    let mut app = viewer(TimeUnit::S);
    for _ in 0..20 {
        press(&mut app, '-');
    }
    assert_eq!(app.time_step().time(), 10_000_000_000_000_000_000);
    press(&mut app, '=');
    assert_eq!(app.time_step().time(), 5_000_000_000_000_000_000);
}

#[test]
fn paging_moves_by_half_a_window() {
    let mut app = viewer(TimeUnit::NS);
    press(&mut app, 'l');
    assert_eq!(app.time_start().time(), 500_000);
    press(&mut app, 'l');
    assert_eq!(app.time_start().time(), 1_000_000);
    press(&mut app, 'h');
    assert_eq!(app.time_start().time(), 500_000);
    press(&mut app, 'h');
    press(&mut app, 'h');
    assert_eq!(app.time_start().time(), 0);
    app.set_arr_size(7);
    press(&mut app, 'l');
    assert_eq!(app.time_start().time(), 30_000);
}

#[test]
fn paging_saturates_at_the_end_of_time() {
    let mut app = viewer(TimeUnit::S);
    for _ in 0..20 {
        press(&mut app, '-');
    }
    press(&mut app, 'l');
    assert_eq!(app.time_start().time(), u64::MAX);
    press(&mut app, 'h');
    assert_eq!(app.time_start().time(), 0);
}

#[test]
fn modes_change_with_their_keys() {
    let mut app = viewer(TimeUnit::NS);
    assert_eq!(press(&mut app, 'a'), Action::Nothing);
    assert_eq!(app.mode(), AppMode::AddSignal);
    assert_eq!(press(&mut app, 'q'), Action::Nothing);
    assert_eq!(app.mode(), AppMode::AddSignal);
    assert_eq!(app.handle_key_event(Key::Enter, ""), Action::Nothing);
    assert_eq!(app.mode(), AppMode::AddSignal);
    assert_eq!(app.handle_key_event(Key::Esc, ""), Action::Nothing);
    assert_eq!(app.mode(), AppMode::Run);
    assert_eq!(press(&mut app, 'x'), Action::Nothing);
    assert_eq!(app.handle_key_event(Key::Other, ""), Action::Nothing);
    assert_eq!(app.handle_key_event(Key::Esc, ""), Action::Nothing);
    assert_eq!(app.mode(), AppMode::Run);
    assert_eq!(press(&mut app, 'q'), Action::Nothing);
    assert_eq!(app.mode(), AppMode::Exit);
    assert_eq!(press(&mut app, 't'), Action::Nothing);
    assert_eq!(app.handle_key_event(Key::Esc, ""), Action::Nothing);
    assert_eq!(app.mode(), AppMode::Exit);
}

#[test]
fn input_mode_takes_a_start_time() {
    let mut app = viewer(TimeUnit::NS);
    assert_eq!(press(&mut app, 't'), Action::ClearInput);
    assert_eq!(app.mode(), AppMode::Input);
    assert_eq!(app.handle_key_event(Key::Char('1'), ""), Action::EditInput);
    assert_eq!(app.handle_key_event(Key::Char('q'), "1"), Action::EditInput);
    assert_eq!(app.handle_key_event(Key::Other, "1"), Action::EditInput);
    assert_eq!(app.mode(), AppMode::Input);
    assert_eq!(app.handle_key_event(Key::Enter, "1"), Action::Nothing);
    assert_eq!(app.mode(), AppMode::Input);
    assert_eq!(app.time_start().time(), 0);
    assert_eq!(app.handle_key_event(Key::Enter, "1.5us"), Action::Nothing);
    assert_eq!(app.mode(), AppMode::Run);
    assert_eq!(app.time_start().time(), 1_500_000);
    press(&mut app, 't');
    assert_eq!(app.handle_key_event(Key::Esc, "7ns"), Action::Nothing);
    assert_eq!(app.mode(), AppMode::Run);
    assert_eq!(app.time_start().time(), 1_500_000);
}

#[test]
fn the_window_draws_each_signal() {
    let mut app = viewer(TimeUnit::NS);
    app.set_arr_size(6);
    let root = app.module_root();
    let signals = root.get_signals();
    assert_eq!(app.get_value_string_from_a_signal(signals[0]).unwrap(), "001111");
    assert_eq!(app.get_value_string_from_a_signal(signals[1]).unwrap(), "010101011111");
    let clk = app.get_lines_from_a_signal(signals[0]).unwrap();
    let text = |row: &Vec<rata_wave::ui::Glyph>| row.iter().map(|g| g.symbol).collect::<String>();
    assert_eq!(text(&clk[0]), "┐ ┌───");
    assert_eq!(text(&clk[1]), "└─┘   ");
    let bus = app.get_lines_from_a_signal(signals[1]).unwrap();
    assert_eq!(text(&bus[0]), "┬───┬─");
    assert_eq!(text(&bus[1]), "│01 │␩");
    assert_eq!(text(&bus[2]), "┴───┴─");
    assert_eq!(app.get_lines_from_a_signal(signals[2]), Err(DrawError::MixedKinds));
}

#[test]
fn an_empty_window_cannot_be_drawn() {
    let mut app = viewer(TimeUnit::NS);
    app.set_arr_size(0);
    let root = app.module_root();
    let signals = root.get_signals();
    assert_eq!(app.get_value_string_from_a_signal(signals[0]), Err(WindowError::ZeroCount));
    assert_eq!(
        app.get_lines_from_a_signal(signals[0]),
        Err(DrawError::Window(WindowError::ZeroCount))
    );
}

#[test]
fn the_time_axis_labels_every_tenth_cell() {
    let mut app = viewer(TimeUnit::NS);
    app.set_arr_size(25);
    let (labels, ticks) = app.time_axis();
    assert_eq!(labels, "0ps       100ns     200ns");
    assert_eq!(ticks, "|         |         |    ");
    app.handle_key_event(Key::Char('l'), "");
    app.set_arr_size(12);
    let (labels, ticks) = app.time_axis();
    assert_eq!(labels, "120ns     22");
    assert_eq!(ticks, "|         | ");
    app.set_arr_size(0);
    assert_eq!(app.time_axis(), (String::new(), String::new()));
    app.set_arr_size(10);
    assert_eq!(app.time_axis(), ("120ns     ".to_string(), "|         ".to_string()));
}

#[test]
fn long_labels_are_cut_to_their_strip() {
    let mut app = viewer(TimeUnit::PS);
    app.handle_key_event(Key::Char('t'), "");
    app.handle_key_event(Key::Enter, "1.234567891ms");
    app.set_arr_size(20);
    let (labels, ticks) = app.time_axis();
    assert_eq!(labels, "1.234567891.23456799");
    assert_eq!(ticks, "|         |         ");
}

#[test]
fn the_prompt_tells_whether_the_text_is_a_time() {
    assert_eq!(
        input_prompt("100ns"),
        ("Enter a time (e.g. 100ns) [Valid]".to_string(), Tone::Green)
    );
    assert_eq!(input_prompt(""), ("Enter a time (e.g. 100ns)".to_string(), Tone::Text));
    assert_eq!(
        input_prompt("100"),
        ("Enter a time (e.g. 100ns) [Invalid: Split error]".to_string(), Tone::Red)
    );
    assert_eq!(
        input_prompt(" "),
        ("Enter a time (e.g. 100ns) [Invalid: Empty string]".to_string(), Tone::Red)
    );
    assert_eq!(
        input_prompt("0.1ps"),
        (
            "Enter a time (e.g. 100ns) [Invalid: Time must be an integer in ps]".to_string(),
            Tone::Red
        )
    );
}

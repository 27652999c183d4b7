use rata_wave::module::{load, Command, Module, Scope, ScopeItem};
use rata_wave::signal::{Signal, ValueType, Var};
use rata_wave::value::Value;

fn var(name: &str, code: &str, size: u32) -> ScopeItem {
    ScopeItem::Var(Var { size, code: code.to_string(), reference: name.to_string() })
}

fn scope(name: &str, items: Vec<ScopeItem>) -> Scope {
    Scope { identifier: name.to_string(), items }
}

fn three_levels() -> Vec<ScopeItem> {
    vec![
        var("top_clk", "!", 1),
        ScopeItem::Scope(scope(
            "outer",
            vec![
                ScopeItem::Scope(scope(
                    "inner",
                    vec![var("deep", "#", 1), ScopeItem::Comment("note".to_string())],
                )),
                var("data", "\"", 8),
                ScopeItem::Scope(scope("empty", vec![])),
            ],
        )),
        var("reset", "$", 1),
        ScopeItem::Scope(scope("side", vec![var("flag", "%", 1)])),
    ]
}

fn names(signals: &[&Signal]) -> Vec<String> {
    signals.iter().map(|s| s.name.clone()).collect()
}

#[test]
fn flatten_counts_every_declared_variable() {
    let root = load(three_levels(), &vec![]).unwrap();
    assert_eq!(root.get_signals().len(), 5);
}

#[test]
fn flatten_lists_own_signals_before_those_below() {
    let root = load(three_levels(), &vec![]).unwrap();
    assert_eq!(names(&root.get_signals()), ["top_clk", "reset", "data", "deep", "flag"]);
}

#[test]
fn path_of_a_signal_two_scopes_deep() {
    let root = load(three_levels(), &vec![]).unwrap();
    let signals = root.get_signals();
    let deep = signals.iter().find(|s| s.name == "deep").unwrap();
    assert_eq!(deep.output_path(), "outer->inner:deep(#)");
    assert_eq!(deep.scope_path, ["outer", "inner"]);
    let inner = &root.submodules[0].submodules[0];
    assert_eq!(inner.get_path_str(), "outer->inner");
    assert_eq!(root.submodules[0].get_path_str(), "outer");
    assert_eq!(root.get_path_str(), "");
    let top = signals.iter().find(|s| s.name == "top_clk").unwrap();
    assert_eq!(top.output_path(), "top_clk(!)");
}

#[test]
fn modules_know_their_names_and_depths() {
    let root = load(three_levels(), &vec![]).unwrap();
    assert_eq!(root.name, "Root");
    assert_eq!(root.depth, 1);
    assert_eq!(root.submodules.len(), 2);
    assert_eq!(root.submodules[0].name, "outer");
    assert_eq!(root.submodules[0].depth, 2);
    assert_eq!(root.submodules[0].submodules[0].name, "inner");
    assert_eq!(root.submodules[0].submodules[0].depth, 3);
    assert_eq!(root.submodules[0].submodules[1].name, "empty");
    assert_eq!(root.submodules[1].name, "side");
    assert_eq!(root.signals.len(), 2);
}

#[test]
fn from_scope_builds_below_a_given_depth() {
    let outer = scope("outer", vec![ScopeItem::Scope(scope("inner", vec![var("deep", "#", 1)]))]);
    let module = Module::from_scope(&outer, 7).unwrap();
    assert_eq!(module.depth, 7);
    assert_eq!(module.submodules[0].depth, 8);
    assert_eq!(module.get_path_str(), "");
    assert_eq!(module.submodules[0].get_path_str(), "inner");
    assert_eq!(module.get_signals()[0].output_path(), "inner:deep(#)");
}

fn nested(levels: usize) -> Scope {
    let mut current = scope("leaf", vec![var("v", "!", 1)]);
    for _ in 1..levels {
        current = scope("s", vec![ScopeItem::Scope(current)]);
    }
    current
}

#[test]
fn depth_beyond_255_is_refused() {
    assert!(Module::from_scope(&nested(255), 1).is_some());
    assert!(Module::from_scope(&nested(256), 1).is_none());
    assert!(Module::from_scope(&nested(1), 255).is_some());
    assert!(Module::from_scope(&nested(2), 255).is_none());
    assert!(load(vec![ScopeItem::Scope(nested(254))], &vec![]).is_some());
    assert!(load(vec![ScopeItem::Scope(nested(255))], &vec![]).is_none());
}

#[test]
fn signal_from_a_variable_has_no_events() {
    let signal = Signal::from_var(&Var { size: 4, code: "&".to_string(), reference: "bus".to_string() });
    assert_eq!(signal.name, "bus");
    assert_eq!(signal.code, "&");
    assert_eq!(signal.size, 4);
    assert!(signal.events.is_empty());
    assert!(signal.scope_path.is_empty());
}

fn stream() -> Vec<Command> {
    vec![
        Command::ChangeScalar("!".to_string(), Value::V0),
        Command::Timestamp(10),
        Command::ChangeScalar("!".to_string(), Value::V1),
        Command::ChangeVector("\"".to_string(), vec![Value::V1, Value::V0]),
        Command::Other,
        Command::ChangeScalar("?".to_string(), Value::V1),
        Command::Timestamp(25),
        Command::ChangeScalar("#".to_string(), Value::Z),
        Command::Timestamp(40),
    ]
}

#[test]
fn changes_go_to_the_signal_with_their_code() {
    let root = load(three_levels(), &stream()).unwrap();
    let signals = root.get_signals();
    let events = |name: &str| signals.iter().find(|s| s.name == name).unwrap().events.clone();
    assert_eq!(
        events("top_clk"),
        vec![(0, ValueType::Value(Value::V0)), (10, ValueType::Value(Value::V1))]
    );
    assert_eq!(events("data"), vec![(10, ValueType::Vector(vec![Value::V1, Value::V0]))]);
    assert_eq!(events("deep"), vec![(25, ValueType::Value(Value::Z))]);
    assert!(events("reset").is_empty());
    assert!(events("flag").is_empty());
}

#[test]
fn a_shared_code_reaches_every_signal_that_has_it() {
    let items = vec![
        var("a", "!", 1),
        ScopeItem::Scope(scope("s", vec![var("b", "!", 1), var("c", "#", 1)])),
    ];
    let mut root = load(items, &vec![]).unwrap();
    root.add_event(&"!".to_string(), 5, ValueType::Value(Value::V1));
    let signals = root.get_signals();
    assert_eq!(signals[0].events.len(), 1);
    assert_eq!(signals[1].events.len(), 1);
    assert_eq!(signals[2].events.len(), 0);
}

#[test]
fn max_time_is_the_latest_last_event() {
    let root = load(three_levels(), &stream()).unwrap();
    assert_eq!(root.max_time(), 25);
    assert_eq!(load(three_levels(), &vec![]).unwrap().max_time(), 0);
    assert_eq!(root.submodules[1].max_time(), 0);
    assert_eq!(root.submodules[0].max_time(), 25);
}

#[test]
fn replay_continues_a_loaded_tree_from_time_zero() {
    let mut root = load(three_levels(), &vec![]).unwrap();
    root.replay(&vec![
        Command::Timestamp(3),
        Command::ChangeScalar("$".to_string(), Value::V1),
    ]);
    let signals = root.get_signals();
    assert_eq!(signals[1].events, vec![(3, ValueType::Value(Value::V1))]);
}

#[test]
fn modules_are_written_as_text() {
    let items = vec![
        var("clk", "!", 1),
        ScopeItem::Scope(scope("cpu", vec![var("pc", "#", 8), ScopeItem::Scope(scope("alu", vec![]))])),
    ];
    let root = load(
        items,
        &vec![Command::Timestamp(5), Command::ChangeScalar("!".to_string(), Value::V1)],
    )
    .unwrap();
    assert_eq!(
        root.display(),
        "Module: Root, depth: 1\n  Signal: clk, code: !, events: [(5, Value(V1))]\n  Module: cpu, depth: 2\n    Signal: pc, code: #\n    Module: alu, depth: 3\n"
    );
}

//! The scope tree: modules that hold signals and further modules.

use vstd::prelude::*;
use vstd::string::StringExecFns;
use crate::signal::{
    copy_bits, declared_signal, in_time_order, signal_text, texts, Reading, Signal, SignalView,
    Timeline, ValueType, Var,
};
use crate::text::{decimal, decimal_string, join_path, joined, path_separator};
use crate::value::Value;

verus! {

/// The declaration of a scope with what it holds, in the declared order.
pub struct Scope {
    /// Name of the scope.
    pub identifier: String,
    /// Items within the scope.
    pub items: Vec<ScopeItem>,
}

/// One item of a declared scope.
pub enum ScopeItem {
    /// A child scope.
    Scope(Scope),
    /// A variable.
    Var(Var),
    /// A comment, which declares nothing.
    Comment(String),
}

/// A module of the trace with the signals and modules below it.
pub struct Module {
    pub name: String,
    /// One for the root, one more at each level below.
    pub depth: u8,
    pub signals: Vec<Signal>,
    pub submodules: Vec<Module>,
    /// The names of the modules from just below the root down to this one;
    /// empty for the root.
    pub path: Vec<String>,
}

/// The mathematical content of a [`Module`].
pub struct ModuleView {
    pub name: Seq<char>,
    pub depth: u8,
    pub signals: Seq<SignalView>,
    pub submodules: Seq<ModuleView>,
    pub path: Seq<Seq<char>>,
}

/// The contents of a list of signals.
pub open spec fn signals_of(signals: Seq<Signal>) -> Seq<SignalView> {
    Seq::new(signals.len(), |i: int| signals[i]@)
}

impl Module {
    /// The contents of the first `n` of the modules below this one.
    pub open spec fn submodules_upto(&self, n: int) -> Seq<ModuleView>
        decreases self, 0nat, n,
    {
        if 0 < n <= self.submodules@.len() {
            self.submodules_upto(n - 1).push(self.submodules@[n - 1].model())
        } else {
            Seq::empty()
        }
    }

    /// The contents of the module and of all below it.
    pub open spec fn model(&self) -> ModuleView
        decreases self, 1nat, 0int,
    {
        ModuleView {
            name: self.name@,
            depth: self.depth,
            signals: signals_of(self.signals@),
            submodules: self.submodules_upto(self.submodules@.len() as int),
            path: texts(self.path@),
        }
    }
}

impl View for Module {
    type V = ModuleView;

    open spec fn view(&self) -> ModuleView {
        self.model()
    }
}

/// The signals that the first `n` items declare directly, in their order.
pub open spec fn declared_signals(items: Seq<ScopeItem>, n: int, path: Seq<Seq<char>>) -> Seq<
    SignalView,
>
    decreases n,
{
    if 0 < n <= items.len() {
        let before = declared_signals(items, n - 1, path);
        match items[n - 1] {
            ScopeItem::Var(var) => before.push(declared_signal(var, path)),
            _ => before,
        }
    } else {
        Seq::empty()
    }
}

/// The modules that the child scopes among the first `n` items make, in
/// their order, each at `depth` and with its name added to `path`.
pub open spec fn declared_modules(items: Seq<ScopeItem>, n: int, depth: int, path: Seq<Seq<char>>) -> Seq<
    ModuleView,
>
    decreases items, n,
{
    if 0 < n <= items.len() {
        let before = declared_modules(items, n - 1, depth, path);
        match items[n - 1] {
            ScopeItem::Scope(scope) => before.push(
                declared_module(scope, depth, path.push(scope.identifier@)),
            ),
            _ => before,
        }
    } else {
        Seq::empty()
    }
}

/// The module that a declared scope makes at `depth`, with `path` as its own
/// path: its variables as signals without events, its child scopes as the
/// modules below it.
pub open spec fn declared_module(scope: Scope, depth: int, path: Seq<Seq<char>>) -> ModuleView
    decreases scope,
{
    declared_tree(scope.identifier@, scope.items@, depth, path)
}

/// The module that a name and a list of items make at `depth`, with `path`
/// as its own path.
pub open spec fn declared_tree(
    name: Seq<char>,
    items: Seq<ScopeItem>,
    depth: int,
    path: Seq<Seq<char>>,
) -> ModuleView
    decreases items, items.len() + 1,
{
    ModuleView {
        name: name,
        depth: depth as u8,
        signals: declared_signals(items, items.len() as int, path),
        submodules: declared_modules(items, items.len() as int, depth + 1, path),
        path: path,
    }
}

/// The number of levels of a declared scope: one more than the deepest of
/// its child scopes among the first `n` items has, or one without any.
pub open spec fn levels_upto(items: Seq<ScopeItem>, n: int) -> nat
    decreases items, n,
{
    if 0 < n <= items.len() {
        let before = levels_upto(items, n - 1);
        match items[n - 1] {
            ScopeItem::Scope(scope) => if levels(scope) + 1 > before {
                levels(scope) + 1
            } else {
                before
            },
            _ => before,
        }
    } else {
        1
    }
}

/// The number of levels of a declared scope, itself included.
pub open spec fn levels(scope: Scope) -> nat
    decreases scope,
{
    levels_upto(scope.items@, scope.items@.len() as int)
}

/// The contents of a list of borrowed signals.
pub open spec fn borrowed_signals(signals: Seq<&Signal>) -> Seq<SignalView> {
    Seq::new(signals.len(), |i: int| signals[i]@)
}

/// The signals of the first `n` of a list of modules, each followed by those
/// below it, one module after the other.
pub open spec fn flatten_upto(modules: Seq<ModuleView>, n: int) -> Seq<SignalView>
    decreases modules, n,
{
    if 0 < n <= modules.len() {
        flatten_upto(modules, n - 1) + flatten(modules[n - 1])
    } else {
        Seq::empty()
    }
}

/// All signals of a module, in display order: the module's own signals as
/// declared, then, for each module below it in declared order, that
/// module's signals in the same way.
pub open spec fn flatten(module: ModuleView) -> Seq<SignalView>
    decreases module,
{
    module.signals + flatten_upto(module.submodules, module.submodules.len() as int)
}

/// A signal after a change record for `id`: the change is appended if the
/// signal has that code, and the signal is as before if not.
pub open spec fn signal_with_event(
    signal: SignalView,
    id: Seq<char>,
    timestamp: u64,
    value: Reading,
) -> SignalView {
    if signal.code == id {
        SignalView { events: signal.events.push((timestamp, value)), ..signal }
    } else {
        signal
    }
}

/// A module after a change record for `id`: every signal in it and below it
/// that has that code gets the change appended; nothing else changes.
pub open spec fn with_event(module: ModuleView, id: Seq<char>, timestamp: u64, value: Reading) -> ModuleView
    decreases module,
{
    ModuleView {
        signals: Seq::new(
            module.signals.len(),
            |i: int| signal_with_event(module.signals[i], id, timestamp, value),
        ),
        submodules: Seq::new(
            module.submodules.len(),
            |i: int|
                if 0 <= i < module.submodules.len() {
                    with_event(module.submodules[i], id, timestamp, value)
                } else {
                    module.submodules[i]
                },
        ),
        ..module
    }
}

/// The timestamp of a signal's last event; zero without events.
pub open spec fn last_time(signal: SignalView) -> u64 {
    if signal.events.len() == 0 {
        0
    } else {
        signal.events.last().0
    }
}

/// The latest of the last timestamps of the first `n` signals; zero without
/// any.
pub open spec fn latest_of(signals: Seq<SignalView>, n: int) -> u64
    decreases n,
{
    if 0 < n <= signals.len() {
        let before = latest_of(signals, n - 1);
        if last_time(signals[n - 1]) > before {
            last_time(signals[n - 1])
        } else {
            before
        }
    } else {
        0
    }
}

/// The latest last timestamp of all signals of a module: those of
/// [`flatten`].
pub open spec fn latest(module: ModuleView) -> u64 {
    latest_of(flatten(module), flatten(module).len() as int)
}

/// One record of the change stream of a trace.
pub enum Command {
    /// The time from here on.
    Timestamp(u64),
    /// A change of the single-bit signal with this code.
    ChangeScalar(String, Value),
    /// A change of the vector signal with this code.
    ChangeVector(String, Vec<Value>),
    /// Any other record; it changes nothing.
    Other,
}

/// A module and the current time after the first `n` records of a change
/// stream: a timestamp sets the time, a change is appended at the current
/// time to every signal with its code. The time starts at zero.
pub open spec fn replayed(module: ModuleView, commands: Seq<Command>, n: int) -> (ModuleView, u64)
    decreases n,
{
    if 0 < n <= commands.len() {
        let (before, now) = replayed(module, commands, n - 1);
        match commands[n - 1] {
            Command::Timestamp(t) => (before, t),
            Command::ChangeScalar(id, v) => (with_event(before, id@, now, Reading::Bit(v)), now),
            Command::ChangeVector(id, bits) => (
                with_event(before, id@, now, Reading::Bits(bits@)),
                now,
            ),
            Command::Other => (before, now),
        }
    } else {
        (module, 0)
    }
}

/// Two blanks for each level of depth.
pub open spec fn indent(depth: nat) -> Seq<char>
    decreases depth,
{
    if depth == 0 {
        Seq::empty()
    } else {
        indent((depth - 1) as nat) + "  "@
    }
}

/// The lines of the first `n` signals of a module, each behind the
/// module's indent.
pub open spec fn signal_lines(signals: Seq<SignalView>, depth: nat, n: int) -> Seq<char>
    decreases n,
{
    if 0 < n <= signals.len() {
        signal_lines(signals, depth, n - 1) + indent(depth) + signal_text(signals[n - 1])
    } else {
        Seq::empty()
    }
}

/// The texts of the first `n` modules below a module, each behind that
/// module's indent.
pub open spec fn module_lines(modules: Seq<ModuleView>, depth: nat, n: int) -> Seq<char>
    decreases modules, n,
{
    if 0 < n <= modules.len() {
        module_lines(modules, depth, n - 1) + indent(depth) + module_text(modules[n - 1])
    } else {
        Seq::empty()
    }
}

/// A module as text: a line with its name and depth, a line for each of
/// its signals, then the modules below it in the same way.
pub open spec fn module_text(module: ModuleView) -> Seq<char>
    decreases module,
{
    "Module: "@ + module.name + ", depth: "@ + decimal(module.depth as nat) + "\n"@ + signal_lines(
        module.signals,
        module.depth as nat,
        module.signals.len() as int,
    ) + module_lines(module.submodules, module.depth as nat, module.submodules.len() as int)
}

/// The number of variables that the first `n` items declare, child scopes
/// counted with all that they hold.
pub open spec fn var_count_upto(items: Seq<ScopeItem>, n: int) -> nat
    decreases items, n,
{
    if 0 < n <= items.len() {
        var_count_upto(items, n - 1) + match items[n - 1] {
            ScopeItem::Var(_) => 1nat,
            ScopeItem::Scope(scope) => var_count(scope),
            _ => 0nat,
        }
    } else {
        0
    }
}

/// The number of variables that a scope declares, at any level.
pub open spec fn var_count(scope: Scope) -> nat
    decreases scope,
{
    var_count_upto(scope.items@, scope.items@.len() as int)
}

/// The signals of the first `n` modules of a list depend on those modules
/// alone.
pub proof fn lemma_flatten_upto_prefix(a: Seq<ModuleView>, b: Seq<ModuleView>, n: int)
    requires
        0 <= n <= a.len(),
        n <= b.len(),
        forall|j: int| 0 <= j < n ==> a[j] == b[j],
    ensures
        flatten_upto(a, n) == flatten_upto(b, n),
    decreases n,
{
    if n > 0 {
        lemma_flatten_upto_prefix(a, b, n - 1);
    }
}

/// The modules and signals that the first `n` items of a scope make hold
/// one signal for each variable declared among those items.
pub proof fn lemma_signals_match_declarations_upto(
    items: Seq<ScopeItem>,
    n: int,
    depth: int,
    path: Seq<Seq<char>>,
)
    requires
        0 <= n <= items.len(),
    ensures
        declared_signals(items, n, path).len() + flatten_upto(
            declared_modules(items, n, depth, path),
            declared_modules(items, n, depth, path).len() as int,
        ).len() == var_count_upto(items, n),
    decreases items, n,
{
    if n > 0 {
        lemma_signals_match_declarations_upto(items, n - 1, depth, path);
        let before = declared_modules(items, n - 1, depth, path);
        match items[n - 1] {
            ScopeItem::Scope(scope) => {
                let made = declared_module(scope, depth, path.push(scope.identifier@));
                lemma_signals_match_declarations(scope, depth, path.push(scope.identifier@));
                lemma_flatten_upto_prefix(before.push(made), before, before.len() as int);
            },
            _ => {},
        }
    }
}

/// The flattened signal list of a built module holds exactly one signal for
/// each variable that the declared scope holds at any level.
pub proof fn lemma_signals_match_declarations(scope: Scope, depth: int, path: Seq<Seq<char>>)
    ensures
        flatten(declared_module(scope, depth, path)).len() == var_count(scope),
    decreases scope,
{
    lemma_signals_match_declarations_upto(
        scope.items@,
        scope.items@.len() as int,
        depth + 1,
        path,
    );
}

/// The signals of a list, each after a change record for `id`.
pub open spec fn signals_with_event(
    signals: Seq<SignalView>,
    id: Seq<char>,
    timestamp: u64,
    value: Reading,
) -> Seq<SignalView> {
    Seq::new(signals.len(), |i: int| signal_with_event(signals[i], id, timestamp, value))
}

/// A change record reaches the signals of the first `n` modules of a list
/// as it reaches each of them in the flattened list.
pub proof fn lemma_event_in_flattened_upto(
    modules: Seq<ModuleView>,
    n: int,
    id: Seq<char>,
    timestamp: u64,
    value: Reading,
)
    requires
        0 <= n <= modules.len(),
    ensures
        flatten_upto(
            Seq::new(modules.len(), |i: int| with_event(modules[i], id, timestamp, value)),
            n,
        ) == signals_with_event(flatten_upto(modules, n), id, timestamp, value),
    decreases modules, n,
{
    let after = Seq::new(modules.len(), |i: int| with_event(modules[i], id, timestamp, value));
    if n > 0 {
        lemma_event_in_flattened_upto(modules, n - 1, id, timestamp, value);
        lemma_event_in_flattened(modules[n - 1], id, timestamp, value);
        assert(flatten_upto(after, n) =~= signals_with_event(
            flatten_upto(modules, n),
            id,
            timestamp,
            value,
        ));
    } else {
        assert(flatten_upto(after, n) =~= signals_with_event(
            flatten_upto(modules, n),
            id,
            timestamp,
            value,
        ));
    }
}

/// A change record changes the flattened signal list signal by signal: the
/// list keeps its length and order, each signal with the record's code has
/// the change appended, and the others are as before.
pub proof fn lemma_event_in_flattened(
    module: ModuleView,
    id: Seq<char>,
    timestamp: u64,
    value: Reading,
)
    ensures
        flatten(with_event(module, id, timestamp, value)) == signals_with_event(
            flatten(module),
            id,
            timestamp,
            value,
        ),
    decreases module,
{
    let after = with_event(module, id, timestamp, value);
    lemma_event_in_flattened_upto(
        module.submodules,
        module.submodules.len() as int,
        id,
        timestamp,
        value,
    );
    assert(after.submodules =~= Seq::new(
        module.submodules.len(),
        |i: int| with_event(module.submodules[i], id, timestamp, value),
    ));
    assert(flatten(after) =~= signals_with_event(flatten(module), id, timestamp, value));
}

/// True when some signal of the module or below it has the code `id`.
pub open spec fn declares(module: ModuleView, id: Seq<char>) -> bool {
    exists|i: int| 0 <= i < flatten(module).len() && (#[trigger] flatten(module)[i]).code == id
}

/// A change record whose code no signal has is dropped: the flattened
/// signal list is as before.
pub proof fn lemma_unknown_code_is_dropped(
    module: ModuleView,
    id: Seq<char>,
    timestamp: u64,
    value: Reading,
)
    requires
        !declares(module, id),
    ensures
        flatten(with_event(module, id, timestamp, value)) == flatten(module),
{
    lemma_event_in_flattened(module, id, timestamp, value);
    let before = flatten(module);
    let after = signals_with_event(before, id, timestamp, value);
    assert forall|i: int| 0 <= i < before.len() implies after[i] == before[i] by {
        assert(before[i].code != id);
    }
    assert(after =~= before);
}

/// True when a module is laid out as a tree built from declarations is:
/// its signals carry its path, and each module below it lies one level
/// deeper, has the path of this one with its own name added, and is well
/// formed in turn.
pub open spec fn well_formed(module: ModuleView) -> bool
    decreases module,
{
    &&& forall|i: int|
        0 <= i < module.signals.len() ==> (#[trigger] module.signals[i]).scope_path == module.path
    &&& forall|j: int|
        0 <= j < module.submodules.len() ==> {
            let below = #[trigger] module.submodules[j];
            &&& below.depth == module.depth + 1
            &&& below.path == module.path.push(below.name)
            &&& well_formed(below)
        }
}

/// The signals that variables declare carry the path of their scope.
pub proof fn lemma_declared_signals_carry_path(
    items: Seq<ScopeItem>,
    n: int,
    path: Seq<Seq<char>>,
    i: int,
)
    requires
        0 <= n <= items.len(),
        0 <= i < declared_signals(items, n, path).len(),
    ensures
        declared_signals(items, n, path)[i].scope_path == path,
    decreases n,
{
    if i < declared_signals(items, n - 1, path).len() {
        lemma_declared_signals_carry_path(items, n - 1, path, i);
    }
}

/// The modules that the child scopes among the first `n` items make are
/// well formed at `depth`, below the path `path`.
pub proof fn lemma_declared_modules_well_formed(
    items: Seq<ScopeItem>,
    n: int,
    depth: int,
    path: Seq<Seq<char>>,
    j: int,
)
    requires
        0 <= n <= items.len(),
        1 <= depth,
        depth + levels_upto(items, n) - 2 <= u8::MAX,
        0 <= j < declared_modules(items, n, depth, path).len(),
    ensures
        declared_modules(items, n, depth, path)[j].depth == depth,
        declared_modules(items, n, depth, path)[j].path == path.push(
            declared_modules(items, n, depth, path)[j].name,
        ),
        well_formed(declared_modules(items, n, depth, path)[j]),
    decreases items, n,
{
    lemma_levels_grow(items, n - 1, n);
    let before = declared_modules(items, n - 1, depth, path);
    if j < before.len() {
        lemma_declared_modules_well_formed(items, n - 1, depth, path, j);
        assert(declared_modules(items, n, depth, path)[j] == before[j]);
    } else {
        match items[n - 1] {
            ScopeItem::Scope(scope) => {
                assert(levels_upto(items, n) >= levels(scope) + 1);
                let below = path.push(scope.identifier@);
                lemma_declared_well_formed(scope.identifier@, scope.items@, depth, below);
                let made = declared_tree(scope.identifier@, scope.items@, depth, below);
                assert(declared_module(scope, depth, below) == made);
                assert(declared_modules(items, n, depth, path) == before.push(made));
                assert(declared_modules(items, n, depth, path)[j] == made);
                assert(made.path == below && made.name == scope.identifier@);
            },
            _ => {},
        }
    }
}

/// A module built from declarations is well formed, where none of its
/// levels lies deeper than 255.
pub proof fn lemma_declared_well_formed(
    name: Seq<char>,
    items: Seq<ScopeItem>,
    depth: int,
    path: Seq<Seq<char>>,
)
    requires
        0 <= depth,
        depth + levels_upto(items, items.len() as int) - 1 <= u8::MAX,
    ensures
        well_formed(declared_tree(name, items, depth, path)),
        declared_tree(name, items, depth, path).depth == depth,
    decreases items, items.len() + 1,
{
    let module = declared_tree(name, items, depth, path);
    lemma_levels_grow(items, 0, items.len() as int);
    assert forall|i: int| 0 <= i < module.signals.len() implies (
    #[trigger] module.signals[i]).scope_path == module.path by {
        lemma_declared_signals_carry_path(items, items.len() as int, path, i);
    }
    assert forall|j: int| 0 <= j < module.submodules.len() implies {
        let below = #[trigger] module.submodules[j];
        &&& below.depth == module.depth + 1
        &&& below.path == module.path.push(below.name)
        &&& well_formed(below)
    } by {
        lemma_declared_modules_well_formed(items, items.len() as int, depth + 1, path, j);
    }
}

/// A change record keeps a well-formed module well formed.
pub proof fn lemma_event_keeps_well_formed(
    module: ModuleView,
    id: Seq<char>,
    timestamp: u64,
    value: Reading,
)
    requires
        well_formed(module),
    ensures
        well_formed(with_event(module, id, timestamp, value)),
    decreases module,
{
    let after = with_event(module, id, timestamp, value);
    assert forall|i: int| 0 <= i < after.signals.len() implies (
    #[trigger] after.signals[i]).scope_path == after.path by {
        assert(module.signals[i].scope_path == module.path);
    }
    assert forall|j: int| 0 <= j < after.submodules.len() implies {
        let below = #[trigger] after.submodules[j];
        &&& below.depth == after.depth + 1
        &&& below.path == after.path.push(below.name)
        &&& well_formed(below)
    } by {
        let was = module.submodules[j];
        assert(was.depth == module.depth + 1 && was.path == module.path.push(was.name)
            && well_formed(was));
        lemma_event_keeps_well_formed(was, id, timestamp, value);
    }
}

/// True when the timestamps of a change stream never decrease.
pub open spec fn stamps_rise(commands: Seq<Command>) -> bool {
    forall|i: int, j: int|
        0 <= i < j < commands.len() && (#[trigger] commands[i]) is Timestamp && (
        #[trigger] commands[j]) is Timestamp ==> commands[i]->Timestamp_0
            <= commands[j]->Timestamp_0
}

/// True when no event of the timeline is later than `now`.
pub open spec fn none_later(events: Timeline, now: u64) -> bool {
    forall|j: int| 0 <= j < events.len() ==> (#[trigger] events[j]).0 <= now
}

/// True when every signal of the list has its events in time order and
/// none of them later than `now`.
pub open spec fn settled(signals: Seq<SignalView>, now: u64) -> bool {
    forall|k: int|
        0 <= k < signals.len() ==> in_time_order((#[trigger] signals[k]).events) && none_later(
            signals[k].events,
            now,
        )
}

/// The signals that the first `n` modules of a list of declared modules
/// hold have no events.
pub proof fn lemma_declared_upto_has_no_events(
    items: Seq<ScopeItem>,
    n: int,
    depth: int,
    path: Seq<Seq<char>>,
    k: int,
)
    requires
        0 <= n <= items.len(),
        0 <= k < flatten_upto(
            declared_modules(items, n, depth, path),
            declared_modules(items, n, depth, path).len() as int,
        ).len(),
    ensures
        flatten_upto(
            declared_modules(items, n, depth, path),
            declared_modules(items, n, depth, path).len() as int,
        )[k].events.len() == 0,
    decreases items, n,
{
    let made = declared_modules(items, n, depth, path);
    let before = declared_modules(items, n - 1, depth, path);
    match items[n - 1] {
        ScopeItem::Scope(scope) => {
            let last = declared_module(scope, depth, path.push(scope.identifier@));
            lemma_flatten_upto_prefix(made, before, before.len() as int);
            let head = flatten_upto(before, before.len() as int);
            if k < head.len() {
                lemma_declared_upto_has_no_events(items, n - 1, depth, path, k);
            } else {
                lemma_declared_has_no_events(
                    scope.identifier@,
                    scope.items@,
                    depth,
                    path.push(scope.identifier@),
                    k - head.len(),
                );
            }
        },
        _ => {
            lemma_declared_upto_has_no_events(items, n - 1, depth, path, k);
        },
    }
}

/// The signals of a module just built from declarations have no events.
pub proof fn lemma_declared_has_no_events(
    name: Seq<char>,
    items: Seq<ScopeItem>,
    depth: int,
    path: Seq<Seq<char>>,
    k: int,
)
    requires
        0 <= k < flatten(declared_tree(name, items, depth, path)).len(),
    ensures
        flatten(declared_tree(name, items, depth, path))[k].events.len() == 0,
    decreases items, items.len() + 1,
{
    let own = declared_signals(items, items.len() as int, path);
    if k < own.len() {
        lemma_declared_signals_have_no_events(items, items.len() as int, path, k);
    } else {
        lemma_declared_upto_has_no_events(items, items.len() as int, depth + 1, path, k - own.len());
    }
}

/// The signals that variables declare have no events.
pub proof fn lemma_declared_signals_have_no_events(
    items: Seq<ScopeItem>,
    n: int,
    path: Seq<Seq<char>>,
    k: int,
)
    requires
        0 <= n <= items.len(),
        0 <= k < declared_signals(items, n, path).len(),
    ensures
        declared_signals(items, n, path)[k].events.len() == 0,
    decreases n,
{
    let before = declared_signals(items, n - 1, path);
    if k < before.len() {
        lemma_declared_signals_have_no_events(items, n - 1, path, k);
    }
}

/// The time after the first `n` records of a change stream is zero or the
/// value of a timestamp among them.
pub proof fn lemma_time_is_a_stamp(module: ModuleView, commands: Seq<Command>, n: int)
    requires
        0 <= n <= commands.len(),
    ensures
        replayed(module, commands, n).1 == 0 || exists|i: int|
            0 <= i < n && (#[trigger] commands[i]) == Command::Timestamp(
                replayed(module, commands, n).1,
            ),
    decreases n,
{
    if n > 0 {
        lemma_time_is_a_stamp(module, commands, n - 1);
        let now = replayed(module, commands, n - 1).1;
        match commands[n - 1] {
            Command::Timestamp(t) => {
                assert(commands[n - 1] == Command::Timestamp(t));
            },
            _ => {
                if now != 0 {
                    let i = choose|i: int|
                        0 <= i < n - 1 && (#[trigger] commands[i]) == Command::Timestamp(now);
                    assert(commands[i] == Command::Timestamp(replayed(module, commands, n).1));
                }
            },
        }
    }
}

/// A change at the current time keeps settled signals settled.
pub proof fn lemma_event_keeps_settled(
    module: ModuleView,
    id: Seq<char>,
    now: u64,
    value: Reading,
)
    requires
        settled(flatten(module), now),
    ensures
        settled(flatten(with_event(module, id, now, value)), now),
{
    lemma_event_in_flattened(module, id, now, value);
    let before = flatten(module);
    let after = flatten(with_event(module, id, now, value));
    assert forall|k: int| 0 <= k < after.len() implies in_time_order(
        (#[trigger] after[k]).events,
    ) && none_later(after[k].events, now) by {
        assert(in_time_order(before[k].events) && none_later(before[k].events, now));
        assert(after[k] == signal_with_event(before[k], id, now, value));
        if before[k].code == id {
            let old_events = before[k].events;
            let new_events = after[k].events;
            assert forall|a: int, b: int| 0 <= a <= b < new_events.len() implies (
            #[trigger] new_events[a]).0 <= (#[trigger] new_events[b]).0 by {
                if b < old_events.len() {
                    assert(old_events[a].0 <= old_events[b].0);
                } else if a < old_events.len() {
                    assert(old_events[a].0 <= now);
                }
            }
            assert forall|j: int| 0 <= j < new_events.len() implies (#[trigger] new_events[j]).0
                <= now by {
                if j < old_events.len() {
                    assert(old_events[j].0 <= now);
                }
            }
        }
    }
}

/// Replaying a change stream whose timestamps never decrease on a module
/// whose signals have no events leaves every signal's events in time
/// order, none of them later than the time that the stream has reached.
pub proof fn lemma_replay_keeps_time_order(module: ModuleView, commands: Seq<Command>, n: int)
    requires
        stamps_rise(commands),
        settled(flatten(module), 0),
        0 <= n <= commands.len(),
    ensures
        settled(flatten(replayed(module, commands, n).0), replayed(module, commands, n).1),
    decreases n,
{
    if n > 0 {
        lemma_replay_keeps_time_order(module, commands, n - 1);
        lemma_time_is_a_stamp(module, commands, n - 1);
        let (before, now) = replayed(module, commands, n - 1);
        match commands[n - 1] {
            Command::Timestamp(t) => {
                assert(now <= t) by {
                    if now != 0 {
                        let i = choose|i: int|
                            0 <= i < n - 1 && (#[trigger] commands[i]) == Command::Timestamp(now);
                        assert(commands[i] is Timestamp && commands[n - 1] is Timestamp);
                    }
                }
                let signals = flatten(before);
                assert forall|k: int| 0 <= k < signals.len() implies in_time_order(
                    (#[trigger] signals[k]).events,
                ) && none_later(signals[k].events, t) by {
                    assert(none_later(signals[k].events, now));
                    assert forall|j: int| 0 <= j < signals[k].events.len() implies (
                    #[trigger] signals[k].events[j]).0 <= t by {
                        assert(signals[k].events[j].0 <= now);
                    }
                }
            },
            Command::ChangeScalar(id, v) => {
                lemma_event_keeps_settled(before, id@, now, Reading::Bit(v));
            },
            Command::ChangeVector(id, bits) => {
                lemma_event_keeps_settled(before, id@, now, Reading::Bits(bits@));
            },
            Command::Other => {},
        }
    }
}

/// A trace loaded from a change stream whose timestamps never decrease has
/// the events of every signal in time order.
pub proof fn lemma_loaded_in_time_order(
    items: Seq<ScopeItem>,
    commands: Seq<Command>,
    k: int,
)
    requires
        stamps_rise(commands),
        0 <= k < flatten(
            replayed(
                declared_tree(root_name(), items, 1, Seq::empty()),
                commands,
                commands.len() as int,
            ).0,
        ).len(),
    ensures
        in_time_order(
            flatten(
                replayed(
                    declared_tree(root_name(), items, 1, Seq::empty()),
                    commands,
                    commands.len() as int,
                ).0,
            )[k].events,
        ),
{
    let root = declared_tree(root_name(), items, 1, Seq::empty());
    assert forall|j: int| 0 <= j < flatten(root).len() implies in_time_order(
        (#[trigger] flatten(root)[j]).events,
    ) && none_later(flatten(root)[j].events, 0) by {
        lemma_declared_has_no_events(root_name(), items, 1, Seq::empty(), j);
    }
    lemma_replay_keeps_time_order(root, commands, commands.len() as int);
}

/// No signal's last event is later than [`latest_of`] says, and some
/// signal's last event is at that time unless it is zero.
pub proof fn lemma_latest_of_is_maximum(signals: Seq<SignalView>, n: int)
    requires
        0 <= n <= signals.len(),
    ensures
        forall|j: int| 0 <= j < n ==> last_time(#[trigger] signals[j]) <= latest_of(signals, n),
        latest_of(signals, n) == 0 || exists|j: int|
            0 <= j < n && last_time(#[trigger] signals[j]) == latest_of(signals, n),
    decreases n,
{
    if n > 0 {
        lemma_latest_of_is_maximum(signals, n - 1);
        let before = latest_of(signals, n - 1);
        if last_time(signals[n - 1]) > before {
            assert(last_time(signals[n - 1]) == latest_of(signals, n));
        } else if before != 0 {
            let j = choose|j: int| 0 <= j < n - 1 && last_time(#[trigger] signals[j]) == before;
            assert(last_time(signals[j]) == latest_of(signals, n));
        }
    }
}

/// A copy of a list of names.
pub fn copy_names(names: &Vec<String>) -> (out: Vec<String>)
    ensures
        texts(out@) == texts(names@),
{
    let mut out: Vec<String> = Vec::new();
    let mut i: usize = 0;
    while i < names.len()
        invariant
            i <= names.len(),
            out.len() == i,
            forall|j: int| 0 <= j < i ==> (#[trigger] out@[j])@ == names@[j]@,
        decreases names.len() - i,
    {
        out.push(names[i].clone());
        i += 1;
    }
    assert(texts(out@) =~= texts(names@));
    out
}

/// The modules below a module are listed one for one, in their order.
pub proof fn lemma_submodules_upto(module: &Module, n: int)
    requires
        0 <= n <= module.submodules@.len(),
    ensures
        module.submodules_upto(n).len() == n,
        forall|j: int|
            0 <= j < n ==> #[trigger] module.submodules_upto(n)[j] == module.submodules@[j]@,
    decreases n,
{
    if n > 0 {
        lemma_submodules_upto(module, n - 1);
    }
}

/// More items never make fewer levels.
pub proof fn lemma_levels_grow(items: Seq<ScopeItem>, i: int, n: int)
    requires
        0 <= i <= n <= items.len(),
    ensures
        1 <= levels_upto(items, i) <= levels_upto(items, n),
    decreases n,
{
    if i < n {
        lemma_levels_grow(items, i, n - 1);
    } else if i > 0 {
        lemma_levels_grow(items, 0, i - 1);
    }
}

impl Module {
    /// Builds the module of a declared scope with everything below it, at
    /// `depth` and with `path` as its own path.
    fn build(scope: &Scope, depth: u8, path: &Vec<String>) -> (made: Option<Module>)
        ensures
            made is Some <==> depth + levels(*scope) - 1 <= u8::MAX,
            made matches Some(m) ==> m@ == declared_module(*scope, depth as int, texts(path@)),
        decreases scope,
    {
        let ghost items = scope.items@;
        let ghost here = texts(path@);
        let mut signals: Vec<Signal> = Vec::new();
        let mut submodules: Vec<Module> = Vec::new();
        let mut i: usize = 0;
        while i < scope.items.len()
            invariant
                i <= scope.items.len(),
                items == scope.items@,
                here == texts(path@),
                depth + levels_upto(items, i as int) - 1 <= u8::MAX,
                signals_of(signals@) == declared_signals(items, i as int, here),
                submodules.len() == declared_modules(items, i as int, depth + 1, here).len(),
                forall|j: int|
                    0 <= j < submodules.len() ==> (#[trigger] submodules@[j])@ == declared_modules(
                        items,
                        i as int,
                        depth + 1,
                        here,
                    )[j],
            decreases scope.items.len() - i,
        {
            match &scope.items[i] {
                ScopeItem::Var(var) => {
                    let mut signal = Signal::from_var(var);
                    signal.scope_path = copy_names(path);
                    signals.push(signal);
                    assert(signals_of(signals@) =~= declared_signals(items, i + 1, here));
                },
                ScopeItem::Scope(sub_scope) => {
                    proof {
                        lemma_levels_grow(items, i + 1, items.len() as int);
                        lemma_levels_grow(sub_scope.items@, 0, sub_scope.items@.len() as int);
                        assert(levels_upto(items, i + 1) >= levels(*sub_scope) + 1);
                    }
                    if depth == u8::MAX {
                        return None;
                    }
                    let mut sub_path = copy_names(path);
                    sub_path.push(sub_scope.identifier.clone());
                    assert(texts(sub_path@) =~= here.push(sub_scope.identifier@));
                    match Module::build(sub_scope, depth + 1, &sub_path) {
                        Some(module) => {
                            submodules.push(module);
                        },
                        None => {
                            return None;
                        },
                    }
                },
                _ => {},
            }
            i += 1;
        }
        let module = Module {
            name: scope.identifier.clone(),
            depth,
            signals,
            submodules,
            path: copy_names(path),
        };
        proof {
            lemma_submodules_upto(&module, module.submodules@.len() as int);
            assert(module@.submodules =~= declared_modules(
                items,
                items.len() as int,
                depth + 1,
                here,
            ));
        }
        Some(module)
    }

    /// Builds the module of a declared scope as a root at `depth`: its own
    /// name is no part of any path.
    ///
    /// `None` when some module below it would lie deeper than 255.
    pub fn from_scope(scope: &Scope, depth: u8) -> (made: Option<Module>)
        ensures
            made is Some <==> depth + levels(*scope) - 1 <= u8::MAX,
            made matches Some(m) ==> m@ == declared_module(*scope, depth as int, Seq::empty())
                && well_formed(m@),
    {
        let path: Vec<String> = Vec::new();
        assert(texts(path@) =~= Seq::empty());
        let made = Module::build(scope, depth, &path);
        proof {
            if made is Some {
                lemma_declared_well_formed(
                    scope.identifier@,
                    scope.items@,
                    depth as int,
                    Seq::empty(),
                );
            }
        }
        made
    }
}

impl Module {
    /// Appends a change to every signal with the code `id`, in this module
    /// and in all below it. A code that no signal has changes nothing.
    pub fn add_event(&mut self, id: &String, timestamp: u64, value: ValueType)
        ensures
            final(self)@ == with_event(old(self)@, id@, timestamp, value@),
            well_formed(old(self)@) ==> well_formed(final(self)@),
        decreases *old(self),
    {
        let ghost before = *old(self);
        let mut i: usize = 0;
        while i < self.signals.len()
            invariant
                i <= self.signals.len(),
                self.signals.len() == before.signals.len(),
                self.name == before.name,
                self.depth == before.depth,
                self.path == before.path,
                self.submodules == before.submodules,
                forall|j: int|
                    0 <= j < i ==> (#[trigger] self.signals@[j])@ == signal_with_event(
                        before.signals@[j]@,
                        id@,
                        timestamp,
                        value@,
                    ),
                forall|j: int|
                    i <= j < self.signals.len() ==> #[trigger] self.signals@[j]
                        == before.signals@[j],
            decreases self.signals.len() - i,
        {
            if self.signals[i].code == *id {
                self.signals[i].add_event(timestamp, value.copy());
            }
            i += 1;
        }
        let mut k: usize = 0;
        while k < self.submodules.len()
            invariant
                k <= self.submodules.len(),
                before == *old(self),
                self.submodules.len() == before.submodules.len(),
                self.name == before.name,
                self.depth == before.depth,
                self.path == before.path,
                signals_of(self.signals@) == with_event(before@, id@, timestamp, value@).signals,
                forall|j: int|
                    0 <= j < k ==> (#[trigger] self.submodules@[j])@ == with_event(
                        before.submodules@[j]@,
                        id@,
                        timestamp,
                        value@,
                    ),
                forall|j: int|
                    k <= j < self.submodules.len() ==> #[trigger] self.submodules@[j]
                        == before.submodules@[j],
            decreases self.submodules.len() - k,
        {
            assert(self.submodules@[k as int] == before.submodules@[k as int]);
            self.submodules[k].add_event(id, timestamp, value.copy());
            k += 1;
        }
        proof {
            lemma_submodules_upto(self, self.submodules@.len() as int);
            lemma_submodules_upto(&before, before.submodules@.len() as int);
            assert(self@.submodules =~= with_event(before@, id@, timestamp, value@).submodules);
            if well_formed(before@) {
                lemma_event_keeps_well_formed(before@, id@, timestamp, value@);
            }
        }
    }

    /// All signals of the module and of those below it, in display order.
    pub fn get_signals(&self) -> (all: Vec<&Signal>)
        ensures
            borrowed_signals(all@) == flatten(self@),
        decreases self,
    {
        let mut all: Vec<&Signal> = Vec::new();
        let mut i: usize = 0;
        while i < self.signals.len()
            invariant
                i <= self.signals.len(),
                all.len() == i,
                borrowed_signals(all@) == signals_of(self.signals@).take(i as int),
            decreases self.signals.len() - i,
        {
            let ghost so_far = all@;
            all.push(&self.signals[i]);
            assert(all@ == so_far.push(&self.signals@[i as int]));
            assert(all@.len() == i + 1);
            assert forall|j: int| 0 <= j < i + 1 implies borrowed_signals(all@)[j] == signals_of(
                self.signals@,
            ).take(i + 1)[j] by {
                if j < i {
                    assert(borrowed_signals(so_far)[j] == signals_of(self.signals@).take(i as int)[j]);
                }
            }
            assert(borrowed_signals(all@) =~= signals_of(self.signals@).take(i + 1));
            i += 1;
        }
        assert(signals_of(self.signals@).take(i as int) =~= self@.signals);
        let mut k: usize = 0;
        while k < self.submodules.len()
            invariant
                k <= self.submodules.len(),
                borrowed_signals(all@) == self@.signals + flatten_upto(self@.submodules, k as int),
            decreases self.submodules.len() - k,
        {
            proof {
                lemma_submodules_upto(self, self.submodules@.len() as int);
            }
            let ghost so_far = all@;
            let mut below = self.submodules[k].get_signals();
            let ghost added = below@;
            all.append(&mut below);
            assert(borrowed_signals(all@) =~= borrowed_signals(so_far) + borrowed_signals(added));
            assert(borrowed_signals(all@) =~= self@.signals + flatten_upto(
                self@.submodules,
                k + 1,
            ));
            k += 1;
        }
        proof {
            lemma_submodules_upto(self, self.submodules@.len() as int);
        }
        all
    }

    /// The latest timestamp of any event in the module or below it; zero
    /// when there is no event.
    pub fn max_time(&self) -> (time: u64)
        ensures
            time == latest(self@),
    {
        let all = self.get_signals();
        let ghost signals = flatten(self@);
        let mut time: u64 = 0;
        let mut i: usize = 0;
        while i < all.len()
            invariant
                i <= all.len(),
                borrowed_signals(all@) == signals,
                time == latest_of(signals, i as int),
            decreases all.len() - i,
        {
            assert(signals[i as int] == all@[i as int]@);
            let events = &all[i].events;
            if events.len() > 0 {
                let last = events[events.len() - 1].0;
                if last > time {
                    time = last;
                }
            }
            i += 1;
        }
        time
    }

    /// The path of the module: the names from just below the root down to
    /// the module itself, joined by `->`; empty for the root.
    pub fn get_path_str(&self) -> (text: String)
        ensures
            text@ == joined(self@.path, path_separator()),
    {
        join_path(&self.path)
    }
}

/// Appends two blanks for each level of depth.
fn push_indent(text: &mut String, depth: u8)
    ensures
        final(text)@ == old(text)@ + indent(depth as nat),
{
    let mut i: u8 = 0;
    while i < depth
        invariant
            i <= depth,
            text@ == old(text)@ + indent(i as nat),
        decreases depth - i,
    {
        text.append("  ");
        assert(text@ =~= old(text)@ + indent((i + 1) as nat));
        i += 1;
    }
}

impl Module {
    /// The module and all below it as text, one line for each module and
    /// each signal.
    pub fn display(&self) -> (text: String)
        ensures
            text@ == module_text(self@),
        decreases self,
    {
        let mut text = String::from_str("Module: ");
        text.append(self.name.as_str());
        text.append(", depth: ");
        let depth = decimal_string(self.depth as u64);
        text.append(depth.as_str());
        text.append("\n");
        let ghost head = text@;
        let mut i: usize = 0;
        while i < self.signals.len()
            invariant
                i <= self.signals.len(),
                text@ == head + signal_lines(self@.signals, self.depth as nat, i as int),
            decreases self.signals.len() - i,
        {
            let ghost before = text@;
            push_indent(&mut text, self.depth);
            let line = self.signals[i].display();
            text.append(line.as_str());
            assert(text@ =~= head + signal_lines(self@.signals, self.depth as nat, i + 1));
            i += 1;
        }
        let ghost body = text@;
        let mut k: usize = 0;
        while k < self.submodules.len()
            invariant
                k <= self.submodules.len(),
                text@ == body + module_lines(self@.submodules, self.depth as nat, k as int),
            decreases self.submodules.len() - k,
        {
            proof {
                lemma_submodules_upto(self, self.submodules@.len() as int);
            }
            push_indent(&mut text, self.depth);
            let below = self.submodules[k].display();
            text.append(below.as_str());
            assert(text@ =~= body + module_lines(self@.submodules, self.depth as nat, k + 1));
            k += 1;
        }
        proof {
            lemma_submodules_upto(self, self.submodules@.len() as int);
            assert(text@ =~= module_text(self@));
        }
        text
    }

    /// Replays a change stream on the module: each change is appended, at
    /// the time that the last timestamp before it gave, to every signal
    /// with its code.
    pub fn replay(&mut self, commands: &Vec<Command>)
        ensures
            final(self)@ == replayed(old(self)@, commands@, commands@.len() as int).0,
            well_formed(old(self)@) ==> well_formed(final(self)@),
    {
        let mut now: u64 = 0;
        let mut i: usize = 0;
        while i < commands.len()
            invariant
                i <= commands.len(),
                (self@, now) == replayed(old(self)@, commands@, i as int),
                well_formed(old(self)@) ==> well_formed(self@),
            decreases commands.len() - i,
        {
            match &commands[i] {
                Command::Timestamp(t) => {
                    now = *t;
                },
                Command::ChangeScalar(id, v) => {
                    self.add_event(id, now, ValueType::Value(*v));
                },
                Command::ChangeVector(id, bits) => {
                    self.add_event(id, now, ValueType::Vector(copy_bits(bits)));
                },
                Command::Other => {},
            }
            i += 1;
        }
    }
}

/// The name of the module that holds the top-level items of a trace.
pub open spec fn root_name() -> Seq<char> {
    "Root"@
}

/// Builds the module tree of a trace and replays its change stream: the
/// top-level items of the declarations make the root module `Root` at depth
/// one, and every change is appended to the signals with its code.
///
/// `None` when some module would lie deeper than 255.
pub fn load(items: Vec<ScopeItem>, commands: &Vec<Command>) -> (loaded: Option<Module>)
    ensures
        loaded is Some <==> levels_upto(items@, items@.len() as int) <= u8::MAX,
        loaded matches Some(root) ==> well_formed(root@) && root@ == replayed(
            declared_tree(root_name(), items@, 1, Seq::empty()),
            commands@,
            commands@.len() as int,
        ).0,
{
    let scope = Scope { identifier: String::from_str("Root"), items };
    match Module::from_scope(&scope, 1) {
        Some(mut root) => {
            root.replay(commands);
            Some(root)
        },
        None => None,
    }
}

} // verus!

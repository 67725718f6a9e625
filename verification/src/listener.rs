//! The key listener: which macros a key press starts or stops, the list of
//! macros being played, and the switch that pauses the listener.

use vstd::prelude::*;
use crate::keys::KeySet;
use crate::macros::{Macro, MacroView, macro_views, string_views};

verus! {

/// A macro being played. `handle` is the number by which the caller finds the
/// thread that plays it and that thread's stop flag.
#[derive(Debug)]
pub struct RunningMacro {
    pub macro_t: Macro,
    pub handle: u64,
}

pub struct RunningView {
    pub macro_t: MacroView,
    pub handle: u64,
}

impl View for RunningMacro {
    type V = RunningView;

    open spec fn view(&self) -> RunningView {
        RunningView { macro_t: self.macro_t@, handle: self.handle }
    }
}

pub open spec fn running_views(s: Seq<RunningMacro>) -> Seq<RunningView> {
    s.map_values(|r: RunningMacro| r@)
}

/// What the key listener keeps between events: the macros being played, in the
/// order they were started, and whether the listener is paused.
#[derive(Debug)]
pub struct ListenerState {
    pub running_macros: Vec<RunningMacro>,
    /// While set, key events are ignored and no macro is started or stopped.
    pub stop_all_flag: bool,
}

pub struct ListenerView {
    pub running: Seq<RunningView>,
    pub stop_all: bool,
}

impl View for ListenerState {
    type V = ListenerView;

    open spec fn view(&self) -> ListenerView {
        ListenerView { running: running_views(self.running_macros@), stop_all: self.stop_all_flag }
    }
}

impl ListenerState {
    /// A listener that plays nothing and is not paused.
    pub fn new() -> (r: ListenerState)
        ensures
            r@.running == Seq::<RunningView>::empty(),
            !r@.stop_all,
    {
        let r = ListenerState { running_macros: Vec::new(), stop_all_flag: false };
        assert(r@.running =~= Seq::<RunningView>::empty());
        r
    }
}

// ---------------------------------------------------------------------------
// Which macros a key press starts or stops
// ---------------------------------------------------------------------------

/// Every key of the binding is held.
pub open spec fn binding_held(key_bind: Seq<Seq<char>>, pressed: Set<Seq<char>>) -> bool {
    forall|i: int| 0 <= i < key_bind.len() ==> pressed.contains(#[trigger] key_bind[i])
}

/// Two macros are taken for the same one when name and key binding agree.
pub open spec fn same_macro(a: MacroView, b: MacroView) -> bool {
    a.name == b.name && a.key_bind == b.key_bind
}

/// `j` is the first entry of `running` that plays `m`.
pub open spec fn is_first_match(running: Seq<RunningView>, m: MacroView, j: int) -> bool {
    &&& 0 <= j < running.len()
    &&& same_macro(running[j].macro_t, m)
    &&& forall|k: int| 0 <= k < j ==> !same_macro(#[trigger] running[k].macro_t, m)
}

/// The first entry of `running` that plays `m`, if there is one.
pub open spec fn first_match(running: Seq<RunningView>, m: MacroView) -> Option<int> {
    if exists|j: int| is_first_match(running, m, j) {
        Some(choose|j: int| is_first_match(running, m, j))
    } else {
        None
    }
}

/// The running list, and what is to be stopped and started, while the macros
/// are gone through one by one.
#[verifier::ext_equal]
pub struct ActivationView {
    pub running: Seq<RunningView>,
    pub to_stop: Seq<RunningView>,
    pub to_start: Seq<MacroView>,
}

pub open spec fn activation_start(running: Seq<RunningView>) -> ActivationView {
    ActivationView { running, to_stop: Seq::empty(), to_start: Seq::empty() }
}

/// One macro's turn. Its binding must be fully held, else nothing happens. If
/// it is being played, its first entry leaves the running list and is to be
/// stopped, but only when the held keys are exactly as many as its binding
/// has; if it is not being played, it is to be started.
pub open spec fn activation_step(acc: ActivationView, m: MacroView, pressed: Set<Seq<char>>) -> ActivationView {
    if !binding_held(m.key_bind, pressed) {
        acc
    } else {
        match first_match(acc.running, m) {
            Some(j) => if pressed.len() == m.key_bind.len() {
                ActivationView {
                    running: acc.running.remove(j),
                    to_stop: acc.to_stop.push(acc.running[j]),
                    to_start: acc.to_start,
                }
            } else {
                acc
            },
            None => ActivationView { running: acc.running, to_stop: acc.to_stop, to_start: acc.to_start.push(m) },
        }
    }
}

/// The macros' turns, in the order of the list.
pub open spec fn activation_over(macros: Seq<MacroView>, acc: ActivationView, pressed: Set<Seq<char>>) -> ActivationView
    decreases macros.len(),
{
    if macros.len() == 0 {
        acc
    } else {
        activation_step(activation_over(macros.drop_last(), acc, pressed), macros.last(), pressed)
    }
}

/// Macros to stop and to start after a key press.
#[derive(Debug)]
pub struct Activation {
    /// Entries taken off the running list; their threads are to be told to stop.
    pub to_stop: Vec<RunningMacro>,
    /// Macros to be played.
    pub to_start: Vec<Macro>,
}

/// Whether every key of `key_bind` is in `pressed`.
fn binding_is_held(key_bind: &Vec<String>, pressed: &KeySet) -> (r: bool)
    ensures
        r == binding_held(string_views(key_bind@), pressed@),
{
    let mut i: usize = 0;
    while i < key_bind.len()
        invariant
            i <= key_bind@.len(),
            forall|k: int| 0 <= k < i ==> pressed@.contains(#[trigger] key_bind@[k]@),
        decreases key_bind.len() - i,
    {
        if !pressed.contains(&key_bind[i]) {
            assert(string_views(key_bind@)[i as int] == key_bind@[i as int]@);
            return false;
        }
        i = i + 1;
    }
    assert forall|k: int| 0 <= k < string_views(key_bind@).len() implies pressed@.contains(
        #[trigger] string_views(key_bind@)[k],
    ) by {
        assert(pressed@.contains(key_bind@[k]@));
    }
    true
}

/// Whether two lists of strings hold the same strings in the same order.
fn same_strings(a: &Vec<String>, b: &Vec<String>) -> (r: bool)
    ensures
        r == (string_views(a@) == string_views(b@)),
{
    if a.len() != b.len() {
        assert(string_views(a@).len() != string_views(b@).len());
        return false;
    }
    let mut i: usize = 0;
    while i < a.len()
        invariant
            i <= a@.len(),
            a@.len() == b@.len(),
            forall|k: int| 0 <= k < i ==> #[trigger] a@[k]@ == b@[k]@,
        decreases a.len() - i,
    {
        if a[i] != b[i] {
            assert(string_views(a@)[i as int] != string_views(b@)[i as int]);
            return false;
        }
        i = i + 1;
    }
    assert(string_views(a@) =~= string_views(b@));
    true
}

/// Whether two macros are taken for the same one.
fn same_identity(a: &Macro, b: &Macro) -> (r: bool)
    ensures
        r == same_macro(a@, b@),
{
    a.name == b.name && same_strings(&a.key_bind, &b.key_bind)
}

/// The first entry of `running` that plays `m`.
fn find_running(running: &Vec<RunningMacro>, m: &Macro) -> (r: Option<usize>)
    ensures
        match r {
            Some(j) => first_match(running_views(running@), m@) == Some(j as int),
            None => first_match(running_views(running@), m@) is None,
        },
{
    let ghost rv = running_views(running@);
    let mut i: usize = 0;
    while i < running.len()
        invariant
            i <= running@.len(),
            rv == running_views(running@),
            forall|k: int| 0 <= k < i ==> !same_macro(#[trigger] rv[k].macro_t, m@),
        decreases running.len() - i,
    {
        if same_identity(&running[i].macro_t, m) {
            assert(is_first_match(rv, m@, i as int));
            assert forall|j: int| #[trigger] is_first_match(rv, m@, j) implies j == i by {
                if j < i {
                } else if j > i {
                    assert(!same_macro(rv[i as int].macro_t, m@));
                }
            }
            return Some(i);
        }
        assert(!same_macro(rv[i as int].macro_t, m@));
        i = i + 1;
    }
    assert forall|j: int| !is_first_match(rv, m@, j) by {
        if 0 <= j < rv.len() {
            assert(!same_macro(rv[j].macro_t, m@));
        }
    }
    None
}

/// Decides, after a key press, which macros stop and which start. Nothing
/// happens while the listener is paused. Otherwise the macros are gone through
/// in order (see `activation_step`): entries to stop leave the listener's
/// running list and are handed back; macros to start are handed back as copies
/// and are not put on the running list, which `start_macro` does.
pub fn check_macro_activation(listener: &mut ListenerState, macros: &Vec<Macro>, pressed: &KeySet) -> (r: Activation)
    ensures
        final(listener).stop_all_flag == old(listener).stop_all_flag,
        old(listener).stop_all_flag ==> final(listener)@ == old(listener)@ && r.to_stop@.len() == 0
            && r.to_start@.len() == 0,
        !old(listener).stop_all_flag ==> activation_over(
            macro_views(macros@),
            activation_start(old(listener)@.running),
            pressed@,
        ) == (ActivationView {
            running: final(listener)@.running,
            to_stop: running_views(r.to_stop@),
            to_start: macro_views(r.to_start@),
        }),
{
    let mut to_stop: Vec<RunningMacro> = Vec::new();
    let mut to_start: Vec<Macro> = Vec::new();
    if listener.stop_all_flag {
        return Activation { to_stop, to_start };
    }
    let ghost mv = macro_views(macros@);
    let ghost start = activation_start(old(listener)@.running);
    assert(running_views(to_stop@) =~= Seq::<RunningView>::empty());
    assert(macro_views(to_start@) =~= Seq::<MacroView>::empty());
    assert(mv.take(0) =~= Seq::<MacroView>::empty());
    let mut i: usize = 0;
    while i < macros.len()
        invariant
            i <= macros@.len(),
            mv == macro_views(macros@),
            start == activation_start(old(listener)@.running),
            !listener.stop_all_flag,
            activation_over(mv.take(i as int), start, pressed@) == (ActivationView {
                running: running_views(listener.running_macros@),
                to_stop: running_views(to_stop@),
                to_start: macro_views(to_start@),
            }),
        decreases macros.len() - i,
    {
        let m = &macros[i];
        let ghost before = activation_over(mv.take(i as int), start, pressed@);
        assert(mv.take(i as int + 1).drop_last() =~= mv.take(i as int));
        assert(mv.take(i as int + 1).last() == m@);
        if binding_is_held(&m.key_bind, pressed) {
            match find_running(&listener.running_macros, m) {
                Some(j) => {
                    if pressed.len() == m.key_bind.len() {
                        let ghost rv = running_views(listener.running_macros@);
                        let rm = listener.running_macros.remove(j);
                        let ghost sv = running_views(to_stop@);
                        to_stop.push(rm);
                        assert(running_views(listener.running_macros@) =~= rv.remove(j as int));
                        assert(running_views(to_stop@) =~= sv.push(rv[j as int]));
                    }
                },
                None => {
                    let ghost tv = macro_views(to_start@);
                    to_start.push(m.duplicate());
                    assert(macro_views(to_start@) =~= tv.push(m@));
                },
            }
        }
        i = i + 1;
    }
    assert(mv.take(macros.len() as int) =~= mv);
    Activation { to_stop, to_start }
}

// ---------------------------------------------------------------------------
// The running list
// ---------------------------------------------------------------------------

/// Records that `macro_this` is now played by the thread numbered `handle`:
/// it goes to the end of the running list.
pub fn start_macro(listener: &mut ListenerState, macro_this: Macro, handle: u64)
    ensures
        final(listener)@.running == old(listener)@.running.push(RunningView { macro_t: macro_this@, handle }),
        final(listener).stop_all_flag == old(listener).stop_all_flag,
{
    let ghost rv = running_views(listener.running_macros@);
    let ghost mv = macro_this@;
    listener.running_macros.push(RunningMacro { macro_t: macro_this, handle });
    assert(running_views(listener.running_macros@) =~= rv.push(RunningView { macro_t: mv, handle }));
}

/// Takes every entry off the running list and hands them back, in order, so
/// that their threads can be told to stop and be waited for.
pub fn stop_all_macros(listener: &mut ListenerState) -> (r: Vec<RunningMacro>)
    ensures
        running_views(r@) == old(listener)@.running,
        final(listener)@.running == Seq::<RunningView>::empty(),
        final(listener).stop_all_flag == old(listener).stop_all_flag,
{
    let mut r: Vec<RunningMacro> = Vec::new();
    std::mem::swap(&mut r, &mut listener.running_macros);
    assert(running_views(listener.running_macros@) =~= Seq::<RunningView>::empty());
    r
}

/// Pauses the listener, then takes every entry off the running list as
/// `stop_all_macros` does.
pub fn stop_everything(listener: &mut ListenerState) -> (r: Vec<RunningMacro>)
    ensures
        running_views(r@) == old(listener)@.running,
        final(listener)@.running == Seq::<RunningView>::empty(),
        final(listener).stop_all_flag,
{
    listener.stop_all_flag = true;
    stop_all_macros(listener)
}

/// The entries of `running` whose stop flag in `stopped` (same position) is
/// not set, in their order.
pub open spec fn keep_unstopped(running: Seq<RunningView>, stopped: Seq<bool>) -> Seq<RunningView>
    decreases running.len(),
{
    if running.len() == 0 {
        Seq::empty()
    } else {
        let rest = keep_unstopped(running.drop_last(), stopped);
        if stopped[running.len() - 1] {
            rest
        } else {
            rest.push(running.last())
        }
    }
}

/// The entries of `running` whose stop flag in `stopped` is set, in their order.
pub open spec fn take_stopped(running: Seq<RunningView>, stopped: Seq<bool>) -> Seq<RunningView>
    decreases running.len(),
{
    if running.len() == 0 {
        Seq::empty()
    } else {
        let rest = take_stopped(running.drop_last(), stopped);
        if stopped[running.len() - 1] {
            rest.push(running.last())
        } else {
            rest
        }
    }
}

/// One round of the clean-up: unless the listener is paused, the entries whose
/// threads have set their stop flag leave the running list, and are handed
/// back. `stopped[i]` is the stop flag of the `i`-th entry.
pub fn remove_stopped(listener: &mut ListenerState, stopped: &Vec<bool>) -> (removed: Vec<RunningMacro>)
    requires
        stopped@.len() == old(listener).running_macros@.len(),
    ensures
        final(listener).stop_all_flag == old(listener).stop_all_flag,
        old(listener).stop_all_flag ==> final(listener)@ == old(listener)@ && removed@.len() == 0,
        !old(listener).stop_all_flag ==> final(listener)@.running == keep_unstopped(
            old(listener)@.running,
            stopped@,
        ) && running_views(removed@) == take_stopped(old(listener)@.running, stopped@),
{
    let mut removed: Vec<RunningMacro> = Vec::new();
    if listener.stop_all_flag {
        return removed;
    }
    let mut rest: Vec<RunningMacro> = Vec::new();
    std::mem::swap(&mut rest, &mut listener.running_macros);
    let ghost all = running_views(rest@);
    assert(running_views(listener.running_macros@) =~= Seq::<RunningView>::empty());
    assert(running_views(removed@) =~= Seq::<RunningView>::empty());
    let mut i: usize = 0;
    while rest.len() > 0
        invariant
            i <= all.len(),
            stopped.len() == all.len(),
            running_views(rest@) == all.skip(i as int),
            running_views(listener.running_macros@) == keep_unstopped(all.take(i as int), stopped@),
            running_views(removed@) == take_stopped(all.take(i as int), stopped@),
            !listener.stop_all_flag,
        decreases rest.len(),
    {
        let ghost rv = running_views(rest@);
        assert(rv.len() == all.len() - i);
        assert(rv[0] == all[i as int]);
        let rm = rest.remove(0);
        assert(running_views(rest@) =~= rv.remove(0));
        assert(rv.remove(0) =~= all.skip(i as int + 1));
        assert(all.take(i as int + 1).drop_last() =~= all.take(i as int));
        assert(rm@ == all[i as int]);
        if stopped[i] {
            let ghost gone = running_views(removed@);
            removed.push(rm);
            assert(running_views(removed@) =~= gone.push(all[i as int]));
        } else {
            let ghost kept = running_views(listener.running_macros@);
            listener.running_macros.push(rm);
            assert(running_views(listener.running_macros@) =~= kept.push(all[i as int]));
        }
        i = i + 1;
    }
    assert(all.skip(i as int).len() == 0);
    assert(all.take(i as int) =~= all);
    removed
}

// ---------------------------------------------------------------------------
// Key events
// ---------------------------------------------------------------------------

/// A keyboard event, its key given as a `KeyboardEvent.code` string. Keys
/// without such a code, and events that are not key presses or releases,
/// arrive as `Other`.
#[derive(Debug)]
pub enum KeyEvent {
    Press(String),
    Release(String),
    Other,
}

/// Updates the held keys for one event. Returns whether the macros must now be
/// checked, which is when a key that was not held is pressed. While the
/// listener is paused the event is ignored.
pub fn on_key_event(listener: &ListenerState, pressed: &mut KeySet, event: KeyEvent) -> (check: bool)
    ensures
        listener.stop_all_flag ==> final(pressed)@ == old(pressed)@ && !check,
        !listener.stop_all_flag ==> match event {
            KeyEvent::Press(code) => final(pressed)@ == old(pressed)@.insert(code@) && check == !old(
                pressed,
            )@.contains(code@),
            KeyEvent::Release(code) => final(pressed)@ == old(pressed)@.remove(code@) && !check,
            KeyEvent::Other => final(pressed)@ == old(pressed)@ && !check,
        },
{
    if listener.stop_all_flag {
        return false;
    }
    match event {
        KeyEvent::Press(code) => pressed.insert(code),
        KeyEvent::Release(code) => {
            pressed.remove(&code);
            false
        },
        KeyEvent::Other => false,
    }
}

// ---------------------------------------------------------------------------
// Starting and stopping the listener
// ---------------------------------------------------------------------------

/// What a request to start the listener leads to.
#[derive(Debug)]
pub enum ListenerStart {
    /// The listener thread exists and was paused: it listens again.
    Resumed,
    /// The listener thread exists and listens already: the request is refused.
    AlreadyRunning,
    /// There is no listener thread: one is to be spawned.
    Spawn,
}

impl ListenerStart {
    /// Whether the request is answered with success.
    pub fn accepted(&self) -> (r: bool)
        ensures
            r == !(*self is AlreadyRunning),
    {
        match self {
            ListenerStart::AlreadyRunning => false,
            _ => true,
        }
    }
}

pub open spec fn start_listener_spec(l: ListenerView, has_listener: bool) -> (ListenerView, ListenerStart) {
    if has_listener {
        if l.stop_all {
            (ListenerView { running: l.running, stop_all: false }, ListenerStart::Resumed)
        } else {
            (l, ListenerStart::AlreadyRunning)
        }
    } else {
        (l, ListenerStart::Spawn)
    }
}

/// A request to start the listener; `has_listener` tells whether its thread exists.
pub fn start_listener(listener: &mut ListenerState, has_listener: bool) -> (r: ListenerStart)
    ensures
        (final(listener)@, r) == start_listener_spec(old(listener)@, has_listener),
{
    if has_listener {
        if listener.stop_all_flag {
            listener.stop_all_flag = false;
            return ListenerStart::Resumed;
        }
        return ListenerStart::AlreadyRunning;
    }
    ListenerStart::Spawn
}

pub open spec fn stop_listener_spec(l: ListenerView, has_listener: bool) -> (ListenerView, Option<Seq<RunningView>>) {
    if has_listener {
        (ListenerView { running: Seq::empty(), stop_all: true }, Some(l.running))
    } else {
        (l, None)
    }
}

/// A request to stop the listener; `has_listener` tells whether its thread
/// exists. If it does, the listener is paused and every running entry is taken
/// off the list and handed back (`Some`); else nothing changes (`None`).
pub fn stop_listener(listener: &mut ListenerState, has_listener: bool) -> (r: Option<Vec<RunningMacro>>)
    ensures
        final(listener)@ == stop_listener_spec(old(listener)@, has_listener).0,
        match r {
            Some(v) => stop_listener_spec(old(listener)@, has_listener).1 == Some(running_views(v@)),
            None => stop_listener_spec(old(listener)@, has_listener).1 is None,
        },
{
    if has_listener {
        Some(stop_everything(listener))
    } else {
        None
    }
}

// ---------------------------------------------------------------------------
// Laws
// ---------------------------------------------------------------------------

proof fn lemma_activation_step_keeps_entries(acc: ActivationView, m: MacroView, pressed: Set<Seq<char>>)
    ensures
        ({
            let a = activation_step(acc, m, pressed);
            (a.running + a.to_stop).to_multiset() == (acc.running + acc.to_stop).to_multiset()
        }),
{
    broadcast use vstd::multiset::group_multiset_axioms;
    broadcast use vstd::seq_lib::to_multiset_remove;
    broadcast use vstd::seq_lib::to_multiset_build;
    broadcast use vstd::seq_lib::lemma_multiset_commutative;

    if binding_held(m.key_bind, pressed) {
        if let Some(j) = first_match(acc.running, m) {
            if pressed.len() == m.key_bind.len() {
                let r = acc.running;
                let s = acc.to_stop;
                assert(is_first_match(r, m, j));
                let x = r[j];
                assert(r.to_multiset().count(x) > 0) by {
                    vstd::seq_lib::to_multiset_contains(r, x);
                    assert(r.contains(x));
                }
                assert((r.remove(j) + s.push(x)).to_multiset() =~= (r + s).to_multiset());
            }
        }
    }
}

/// A key press loses no running entry: each entry either stays on the running
/// list or is handed back to be stopped, and nothing else is added to either.
pub proof fn lemma_activation_keeps_every_entry(macros: Seq<MacroView>, running: Seq<RunningView>, pressed: Set<Seq<char>>)
    ensures
        ({
            let a = activation_over(macros, activation_start(running), pressed);
            (a.running + a.to_stop).to_multiset() == running.to_multiset()
        }),
    decreases macros.len(),
{
    if macros.len() == 0 {
        assert(running + Seq::<RunningView>::empty() =~= running);
    } else {
        lemma_activation_keeps_every_entry(macros.drop_last(), running, pressed);
        lemma_activation_step_keeps_entries(
            activation_over(macros.drop_last(), activation_start(running), pressed),
            macros.last(),
            pressed,
        );
    }
}

/// A key press starts only macros of the list whose binding is fully held, and
/// stops only entries whose binding is fully held and has exactly as many keys
/// as are held.
pub proof fn lemma_activation_needs_held_binding(macros: Seq<MacroView>, running: Seq<RunningView>, pressed: Set<Seq<char>>)
    ensures
        ({
            let a = activation_over(macros, activation_start(running), pressed);
            &&& forall|k: int| 0 <= k < a.to_start.len() ==> binding_held(#[trigger] a.to_start[k].key_bind, pressed)
                && macros.contains(a.to_start[k])
            &&& forall|k: int| 0 <= k < a.to_stop.len() ==> binding_held(#[trigger] a.to_stop[k].macro_t.key_bind, pressed)
                && pressed.len() == a.to_stop[k].macro_t.key_bind.len()
        }),
    decreases macros.len(),
{
    if macros.len() > 0 {
        let prev = activation_over(macros.drop_last(), activation_start(running), pressed);
        lemma_activation_needs_held_binding(macros.drop_last(), running, pressed);
        let m = macros.last();
        let a = activation_step(prev, m, pressed);
        assert forall|k: int| 0 <= k < a.to_start.len() implies binding_held(#[trigger] a.to_start[k].key_bind, pressed)
            && macros.contains(a.to_start[k]) by {
            if k < prev.to_start.len() {
                assert(prev.to_start[k] == a.to_start[k]);
                assert(binding_held(prev.to_start[k].key_bind, pressed));
                let w = choose|w: int| 0 <= w < macros.drop_last().len() && macros.drop_last()[w] == prev.to_start[k];
                assert(macros[w] == a.to_start[k]);
            } else {
                assert(macros[macros.len() - 1] == a.to_start[k]);
            }
        }
        assert forall|k: int| 0 <= k < a.to_stop.len() implies binding_held(#[trigger] a.to_stop[k].macro_t.key_bind, pressed)
            && pressed.len() == a.to_stop[k].macro_t.key_bind.len() by {
            if k < prev.to_stop.len() {
                assert(prev.to_stop[k] == a.to_stop[k]);
                assert(binding_held(prev.to_stop[k].macro_t.key_bind, pressed));
            } else {
                let j = first_match(prev.running, m).unwrap();
                assert(is_first_match(prev.running, m, j));
            }
        }
    }
}

/// No two entries of the list are the same entry.
pub open spec fn no_repeated_entry(running: Seq<RunningView>) -> bool {
    running.no_duplicates()
}

/// No two entries of the list play the same macro.
pub open spec fn one_entry_per_macro(running: Seq<RunningView>) -> bool {
    forall|a: int, b: int|
        0 <= a < running.len() && 0 <= b < running.len() && a != b ==> !same_macro(
            #[trigger] running[a].macro_t,
            #[trigger] running[b].macro_t,
        )
}

proof fn lemma_remove_keeps_no_repeats(r: Seq<RunningView>, j: int)
    requires
        0 <= j < r.len(),
    ensures
        no_repeated_entry(r) ==> no_repeated_entry(r.remove(j)),
        one_entry_per_macro(r) ==> one_entry_per_macro(r.remove(j)),
{
    let t = r.remove(j);
    assert forall|a: int| 0 <= a < t.len() implies #[trigger] t[a] == r[if a < j { a } else { a + 1 }] by {}
    if no_repeated_entry(r) {
        assert forall|a: int, b: int| 0 <= a < t.len() && 0 <= b < t.len() && a != b implies t[a] != t[b] by {
            let a2 = if a < j { a } else { a + 1 };
            let b2 = if b < j { b } else { b + 1 };
            assert(t[a] == r[a2] && t[b] == r[b2]);
        }
    }
    if one_entry_per_macro(r) {
        assert forall|a: int, b: int| 0 <= a < t.len() && 0 <= b < t.len() && a != b implies !same_macro(
            #[trigger] t[a].macro_t,
            #[trigger] t[b].macro_t,
        ) by {
            let a2 = if a < j { a } else { a + 1 };
            let b2 = if b < j { b } else { b + 1 };
            assert(t[a] == r[a2] && t[b] == r[b2]);
        }
    }
}

/// A key press keeps the running list free of repeats: it only takes entries
/// off the list, so an entry listed once, or a macro played by one entry,
/// stays so.
pub proof fn lemma_activation_keeps_running_without_repeats(
    macros: Seq<MacroView>,
    running: Seq<RunningView>,
    pressed: Set<Seq<char>>,
)
    ensures
        ({
            let a = activation_over(macros, activation_start(running), pressed);
            &&& no_repeated_entry(running) ==> no_repeated_entry(a.running)
            &&& one_entry_per_macro(running) ==> one_entry_per_macro(a.running)
        }),
    decreases macros.len(),
{
    if macros.len() > 0 {
        lemma_activation_keeps_running_without_repeats(macros.drop_last(), running, pressed);
        let prev = activation_over(macros.drop_last(), activation_start(running), pressed);
        let m = macros.last();
        if binding_held(m.key_bind, pressed) {
            if let Some(j) = first_match(prev.running, m) {
                assert(is_first_match(prev.running, m, j));
                lemma_remove_keeps_no_repeats(prev.running, j);
            }
        }
    }
}

/// Some macro of the list whose binding is fully held plays `r`'s macro.
pub open spec fn touched_by(macros: Seq<MacroView>, pressed: Set<Seq<char>>, r: RunningView) -> bool {
    exists|k: int| 0 <= k < macros.len() && binding_held(macros[k].key_bind, pressed) && same_macro(
        r.macro_t,
        #[trigger] macros[k],
    )
}

proof fn lemma_filter_remove(s: Seq<RunningView>, j: int, q: spec_fn(RunningView) -> bool)
    requires
        0 <= j < s.len(),
        !q(s[j]),
    ensures
        s.remove(j).filter(q) == s.filter(q),
{
    broadcast use Seq::filter_distributes_over_add;
    broadcast use Seq::lemma_filter_push;

    let front = s.take(j);
    let back = s.skip(j + 1);
    assert(s =~= front.push(s[j]) + back);
    assert(s.remove(j) =~= front + back);
    assert(front.push(s[j]).filter(q) == front.filter(q));
}

proof fn lemma_untouched_stay_prefix(full: Seq<MacroView>, k: int, running: Seq<RunningView>, pressed: Set<Seq<char>>)
    requires
        0 <= k <= full.len(),
    ensures
        activation_over(full.take(k), activation_start(running), pressed).running.filter(
            |r: RunningView| !touched_by(full, pressed, r),
        ) == running.filter(|r: RunningView| !touched_by(full, pressed, r)),
    decreases k,
{
    let q = |r: RunningView| !touched_by(full, pressed, r);
    if k == 0 {
        assert(full.take(0) =~= Seq::<MacroView>::empty());
    } else {
        lemma_untouched_stay_prefix(full, k - 1, running, pressed);
        assert(full.take(k).drop_last() =~= full.take(k - 1));
        assert(full.take(k).last() == full[k - 1]);
        let prev = activation_over(full.take(k - 1), activation_start(running), pressed);
        let m = full[k - 1];
        if binding_held(m.key_bind, pressed) {
            if let Some(j) = first_match(prev.running, m) {
                if pressed.len() == m.key_bind.len() {
                    assert(is_first_match(prev.running, m, j));
                    assert(touched_by(full, pressed, prev.running[j]));
                    lemma_filter_remove(prev.running, j, q);
                }
            }
        }
    }
}

/// The entries that no macro with a fully held binding plays stay on the
/// running list, in their order.
pub proof fn lemma_untouched_entries_stay(macros: Seq<MacroView>, running: Seq<RunningView>, pressed: Set<Seq<char>>)
    ensures
        activation_over(macros, activation_start(running), pressed).running.filter(
            |r: RunningView| !touched_by(macros, pressed, r),
        ) == running.filter(|r: RunningView| !touched_by(macros, pressed, r)),
{
    lemma_untouched_stay_prefix(macros, macros.len() as int, running, pressed);
    assert(macros.take(macros.len() as int) =~= macros);
}

/// No two macros of the list are taken for the same one.
pub open spec fn distinct_macros(macros: Seq<MacroView>) -> bool {
    forall|a: int, b: int|
        0 <= a < macros.len() && 0 <= b < macros.len() && a != b ==> !same_macro(
            #[trigger] macros[a],
            #[trigger] macros[b],
        )
}

/// Some entry of `running` plays `m`.
pub open spec fn plays(running: Seq<RunningView>, m: MacroView) -> bool {
    exists|j: int| 0 <= j < running.len() && same_macro(#[trigger] running[j].macro_t, m)
}

proof fn lemma_first_match_when_played(running: Seq<RunningView>, m: MacroView, j: int)
    requires
        0 <= j < running.len(),
        same_macro(running[j].macro_t, m),
    ensures
        first_match(running, m) is Some,
    decreases j,
{
    if exists|k: int| 0 <= k < j && same_macro(#[trigger] running[k].macro_t, m) {
        let k = choose|k: int| 0 <= k < j && same_macro(#[trigger] running[k].macro_t, m);
        lemma_first_match_when_played(running, m, k);
    } else {
        assert(is_first_match(running, m, j));
    }
}

/// `first_match` finds an entry exactly when some entry plays the macro.
proof fn lemma_first_match_iff_played(running: Seq<RunningView>, m: MacroView)
    ensures
        first_match(running, m) is Some <==> plays(running, m),
{
    if plays(running, m) {
        let j = choose|j: int| 0 <= j < running.len() && same_macro(#[trigger] running[j].macro_t, m);
        lemma_first_match_when_played(running, m, j);
    }
    if first_match(running, m) is Some {
        let j = choose|j: int| is_first_match(running, m, j);
        assert(same_macro(running[j].macro_t, m));
    }
}

proof fn lemma_started_prefix(full: Seq<MacroView>, k: int, running: Seq<RunningView>, pressed: Set<Seq<char>>)
    requires
        0 <= k <= full.len(),
        distinct_macros(full),
    ensures
        activation_over(full.take(k), activation_start(running), pressed).to_start == full.take(k).filter(
            |m: MacroView| binding_held(m.key_bind, pressed) && !plays(running, m),
        ),
    decreases k,
{
    broadcast use Seq::lemma_filter_push;
    broadcast use Seq::lemma_filter_contains;
    broadcast use Seq::lemma_filter_contains_rev;

    let p = |m: MacroView| binding_held(m.key_bind, pressed) && !plays(running, m);
    if k == 0 {
        assert(full.take(0) =~= Seq::<MacroView>::empty());
        assert(Seq::<MacroView>::empty().filter(p) =~= Seq::<MacroView>::empty()) by {
            reveal(Seq::filter);
        }
    } else {
        lemma_started_prefix(full, k - 1, running, pressed);
        let before = full.take(k - 1);
        assert(full.take(k) =~= before.push(full[k - 1]));
        assert(full.take(k).drop_last() =~= before);
        assert(full.take(k).last() == full[k - 1]);
        let prev = activation_over(before, activation_start(running), pressed);
        let m = full[k - 1];
        if binding_held(m.key_bind, pressed) {
            // Entries playing `m` were not touched by the earlier macros.
            lemma_untouched_stay_prefix(before, k - 1, running, pressed);
            assert(before.take(k - 1) =~= before);
            let q = |r: RunningView| !touched_by(before, pressed, r);
            assert forall|r: RunningView| same_macro(r.macro_t, m) implies #[trigger] q(r) by {
                if touched_by(before, pressed, r) {
                    let i = choose|i: int| 0 <= i < before.len() && binding_held(before[i].key_bind, pressed)
                        && same_macro(r.macro_t, #[trigger] before[i]);
                    assert(full[i] == before[i]);
                    assert(same_macro(full[i], full[k - 1]));
                }
            }
            lemma_first_match_iff_played(prev.running, m);
            lemma_first_match_iff_played(running, m);
            if plays(prev.running, m) {
                let j = choose|j: int| 0 <= j < prev.running.len() && same_macro(#[trigger] prev.running[j].macro_t, m);
                let r = prev.running[j];
                assert(q(r));
                assert(prev.running.filter(q).contains(r));
                assert(running.filter(q).contains(r));
                let i = choose|i: int| 0 <= i < running.len() && running[i] == r;
                assert(same_macro(running[i].macro_t, m));
            }
            if plays(running, m) {
                let j = choose|j: int| 0 <= j < running.len() && same_macro(#[trigger] running[j].macro_t, m);
                let r = running[j];
                assert(q(r));
                assert(running.filter(q).contains(r));
                assert(prev.running.filter(q).contains(r));
                let i = choose|i: int| 0 <= i < prev.running.len() && prev.running[i] == r;
                assert(same_macro(prev.running[i].macro_t, m));
            }
        }
    }
}

/// When no two macros of the list are taken for the same one, a key press
/// starts exactly the macros whose binding is fully held and that no entry was
/// playing, in the order of the list.
pub proof fn lemma_started_are_held_and_idle(macros: Seq<MacroView>, running: Seq<RunningView>, pressed: Set<Seq<char>>)
    requires
        distinct_macros(macros),
    ensures
        activation_over(macros, activation_start(running), pressed).to_start == macros.filter(
            |m: MacroView| binding_held(m.key_bind, pressed) && !plays(running, m),
        ),
{
    lemma_started_prefix(macros, macros.len() as int, running, pressed);
    assert(macros.take(macros.len() as int) =~= macros);
}

/// A macro that is not being played starts when its whole binding is held.
pub proof fn lemma_press_starts_idle_macro(m: MacroView, running: Seq<RunningView>, pressed: Set<Seq<char>>)
    requires
        binding_held(m.key_bind, pressed),
        forall|k: int| 0 <= k < running.len() ==> !same_macro(#[trigger] running[k].macro_t, m),
    ensures
        activation_over(seq![m], activation_start(running), pressed) == (ActivationView {
            running,
            to_stop: Seq::empty(),
            to_start: seq![m],
        }),
{
    assert(seq![m].drop_last() =~= Seq::<MacroView>::empty());
    assert(activation_over(seq![m].drop_last(), activation_start(running), pressed) == activation_start(running));
    assert(seq![m].last() == m);
    assert(first_match(running, m) is None);
    assert(Seq::<MacroView>::empty().push(m) =~= seq![m]);
}

/// A macro that is being played stops when exactly its binding is held: its
/// first entry leaves the running list and is handed back to be stopped.
pub proof fn lemma_press_stops_running_macro(m: MacroView, running: Seq<RunningView>, pressed: Set<Seq<char>>, j: int)
    requires
        binding_held(m.key_bind, pressed),
        pressed.len() == m.key_bind.len(),
        is_first_match(running, m, j),
    ensures
        activation_over(seq![m], activation_start(running), pressed) == (ActivationView {
            running: running.remove(j),
            to_stop: seq![running[j]],
            to_start: Seq::empty(),
        }),
{
    assert(seq![m].drop_last() =~= Seq::<MacroView>::empty());
    assert(activation_over(seq![m].drop_last(), activation_start(running), pressed) == activation_start(running));
    assert(seq![m].last() == m);
    assert forall|i: int| #[trigger] is_first_match(running, m, i) implies i == j by {
        if i < j {
            assert(!same_macro(running[i].macro_t, m));
        } else if i > j {
            assert(!same_macro(running[j].macro_t, m));
        }
    }
    assert(first_match(running, m) == Some(j));
    assert(Seq::<RunningView>::empty().push(running[j]) =~= seq![running[j]]);
}

/// The binding toggles a macro: pressing exactly its keys while it is idle
/// starts it, and once it is recorded as running under some thread number,
/// pressing exactly its keys again hands that entry back to be stopped and
/// leaves the running list as it was before.
pub proof fn lemma_binding_toggles(m: MacroView, running: Seq<RunningView>, pressed: Set<Seq<char>>, handle: u64)
    requires
        binding_held(m.key_bind, pressed),
        pressed.len() == m.key_bind.len(),
        forall|k: int| 0 <= k < running.len() ==> !same_macro(#[trigger] running[k].macro_t, m),
    ensures
        activation_over(seq![m], activation_start(running), pressed) == (ActivationView {
            running,
            to_stop: Seq::empty(),
            to_start: seq![m],
        }),
        ({
            let entry = RunningView { macro_t: m, handle };
            activation_over(seq![m], activation_start(running.push(entry)), pressed) == (ActivationView {
                running,
                to_stop: seq![entry],
                to_start: Seq::empty(),
            })
        }),
{
    lemma_press_starts_idle_macro(m, running, pressed);
    let entry = RunningView { macro_t: m, handle };
    let after = running.push(entry);
    assert forall|k: int| 0 <= k < running.len() implies !same_macro(#[trigger] after[k].macro_t, m) by {
        assert(after[k] == running[k]);
    }
    assert(is_first_match(after, m, running.len() as int));
    lemma_press_stops_running_macro(m, after, pressed, running.len() as int);
    assert(after.remove(running.len() as int) =~= running);
}

/// While a further key is held beside a running macro's binding, pressing
/// does not stop that macro, nor start a second copy of it.
pub proof fn lemma_extra_key_keeps_running_macro(m: MacroView, running: Seq<RunningView>, pressed: Set<Seq<char>>, j: int)
    requires
        pressed.len() != m.key_bind.len(),
        is_first_match(running, m, j),
    ensures
        activation_over(seq![m], activation_start(running), pressed) == activation_start(running),
{
    assert(seq![m].drop_last() =~= Seq::<MacroView>::empty());
    assert(activation_over(seq![m].drop_last(), activation_start(running), pressed) == activation_start(running));
    assert(seq![m].last() == m);
    assert forall|i: int| #[trigger] is_first_match(running, m, i) implies i == j by {
        if i < j {
            assert(!same_macro(running[i].macro_t, m));
        } else if i > j {
            assert(!same_macro(running[j].macro_t, m));
        }
    }
}

/// When no macro of the list has its whole binding held, a key press starts
/// and stops nothing.
pub proof fn lemma_no_held_binding_changes_nothing(macros: Seq<MacroView>, running: Seq<RunningView>, pressed: Set<Seq<char>>)
    requires
        forall|k: int| 0 <= k < macros.len() ==> !binding_held(#[trigger] macros[k].key_bind, pressed),
    ensures
        activation_over(macros, activation_start(running), pressed) == activation_start(running),
    decreases macros.len(),
{
    if macros.len() > 0 {
        lemma_no_held_binding_changes_nothing(macros.drop_last(), running, pressed);
        assert(!binding_held(macros[macros.len() - 1].key_bind, pressed));
    }
}

/// A key pressed and then released, while it was not held before, leaves the
/// held keys as they were.
pub proof fn lemma_press_then_release(held: Set<Seq<char>>, key: Seq<char>)
    requires
        !held.contains(key),
    ensures
        held.insert(key).remove(key) == held,
{
    assert(held.insert(key).remove(key) =~= held);
}

/// The clean-up loses no entry: every entry is either kept or handed back.
pub proof fn lemma_cleanup_loses_nothing(running: Seq<RunningView>, stopped: Seq<bool>)
    requires
        stopped.len() == running.len(),
    ensures
        (keep_unstopped(running, stopped) + take_stopped(running, stopped)).to_multiset() == running.to_multiset(),
{
    lemma_cleanup_prefix_partition(running, stopped);
}

proof fn lemma_cleanup_prefix_partition(running: Seq<RunningView>, stopped: Seq<bool>)
    requires
        stopped.len() >= running.len(),
    ensures
        (keep_unstopped(running, stopped) + take_stopped(running, stopped)).to_multiset() == running.to_multiset(),
    decreases running.len(),
{
    broadcast use vstd::multiset::group_multiset_axioms;
    broadcast use vstd::seq_lib::to_multiset_build;
    broadcast use vstd::seq_lib::lemma_multiset_commutative;

    if running.len() == 0 {
        assert(keep_unstopped(running, stopped) + take_stopped(running, stopped) =~= running);
    } else {
        let front = running.drop_last();
        lemma_cleanup_prefix_partition(front, stopped);
        assert(running =~= front.push(running.last()));
        assert((keep_unstopped(running, stopped) + take_stopped(running, stopped)).to_multiset()
            =~= running.to_multiset());
    }
}

/// The positions `0 .. n` whose flag in `stopped` equals `flag`, in order.
pub open spec fn positions_with_flag(stopped: Seq<bool>, n: nat, flag: bool) -> Seq<int> {
    Seq::new(n, |i: int| i).filter(|i: int| stopped[i] == flag)
}

proof fn lemma_cleanup_by_position_prefix(running: Seq<RunningView>, stopped: Seq<bool>)
    requires
        stopped.len() >= running.len(),
    ensures
        keep_unstopped(running, stopped) == positions_with_flag(stopped, running.len(), false).map_values(
            |i: int| running[i],
        ),
        take_stopped(running, stopped) == positions_with_flag(stopped, running.len(), true).map_values(
            |i: int| running[i],
        ),
    decreases running.len(),
{
    broadcast use Seq::lemma_filter_push;
    broadcast use Seq::lemma_filter_contains_rev;

    let n = running.len();
    if n == 0 {
        assert(Seq::new(0, |i: int| i) =~= Seq::<int>::empty());
        assert(Seq::<int>::empty().filter(|i: int| stopped[i] == false) =~= Seq::<int>::empty()) by {
            reveal(Seq::filter);
        }
        assert(Seq::<int>::empty().filter(|i: int| stopped[i] == true) =~= Seq::<int>::empty()) by {
            reveal(Seq::filter);
        }
    } else {
        let front = running.drop_last();
        lemma_cleanup_by_position_prefix(front, stopped);
        assert(Seq::new(n, |i: int| i) =~= Seq::new((n - 1) as nat, |i: int| i).push(n - 1));
        assert forall|flag: bool| #![trigger positions_with_flag(stopped, (n - 1) as nat, flag)]
            positions_with_flag(stopped, (n - 1) as nat, flag).map_values(|i: int| running[i])
                == positions_with_flag(stopped, (n - 1) as nat, flag).map_values(|i: int| front[i]) by {
            let ps = positions_with_flag(stopped, (n - 1) as nat, flag);
            assert forall|k: int| 0 <= k < ps.len() implies #[trigger] ps[k] < n - 1 && 0 <= ps[k] by {
                assert(Seq::new((n - 1) as nat, |i: int| i).filter(|i: int| stopped[i] == flag).contains(ps[k]));
            }
            assert(ps.map_values(|i: int| running[i]) =~= ps.map_values(|i: int| front[i]));
        }
        let pf = positions_with_flag(stopped, (n - 1) as nat, false);
        let pt = positions_with_flag(stopped, (n - 1) as nat, true);
        assert(pf.push(n - 1).map_values(|i: int| running[i]) =~= pf.map_values(|i: int| running[i]).push(running.last()));
        assert(pt.push(n - 1).map_values(|i: int| running[i]) =~= pt.map_values(|i: int| running[i]).push(running.last()));
    }
}

/// Each entry's fate in the clean-up depends on its own stop flag alone: the
/// entries kept are those at the positions whose flag is not set, and the
/// entries handed back those at the positions whose flag is set, each in order.
pub proof fn lemma_cleanup_by_position(running: Seq<RunningView>, stopped: Seq<bool>)
    requires
        stopped.len() == running.len(),
    ensures
        keep_unstopped(running, stopped) == positions_with_flag(stopped, running.len(), false).map_values(
            |i: int| running[i],
        ),
        take_stopped(running, stopped) == positions_with_flag(stopped, running.len(), true).map_values(
            |i: int| running[i],
        ),
{
    lemma_cleanup_by_position_prefix(running, stopped);
}

/// When no thread has set its stop flag, the clean-up keeps the running list.
pub proof fn lemma_cleanup_keeps_unstopped(running: Seq<RunningView>, stopped: Seq<bool>)
    requires
        stopped.len() == running.len(),
        forall|i: int| 0 <= i < stopped.len() ==> !#[trigger] stopped[i],
    ensures
        keep_unstopped(running, stopped) == running,
{
    lemma_cleanup_prefix(running, stopped);
}

proof fn lemma_cleanup_prefix(running: Seq<RunningView>, stopped: Seq<bool>)
    requires
        stopped.len() >= running.len(),
        forall|i: int| 0 <= i < stopped.len() ==> !#[trigger] stopped[i],
    ensures
        keep_unstopped(running, stopped) == running,
    decreases running.len(),
{
    if running.len() > 0 {
        lemma_cleanup_prefix(running.drop_last(), stopped);
        assert(!stopped[running.len() - 1]);
        assert(running.drop_last().push(running.last()) =~= running);
    }
}

/// When every thread has set its stop flag, the clean-up empties the running list.
pub proof fn lemma_cleanup_removes_stopped(running: Seq<RunningView>, stopped: Seq<bool>)
    requires
        stopped.len() == running.len(),
        forall|i: int| 0 <= i < stopped.len() ==> #[trigger] stopped[i],
    ensures
        keep_unstopped(running, stopped) == Seq::<RunningView>::empty(),
{
    lemma_cleanup_prefix_stopped(running, stopped);
}

proof fn lemma_cleanup_prefix_stopped(running: Seq<RunningView>, stopped: Seq<bool>)
    requires
        stopped.len() >= running.len(),
        forall|i: int| 0 <= i < stopped.len() ==> #[trigger] stopped[i],
    ensures
        keep_unstopped(running, stopped) == Seq::<RunningView>::empty(),
    decreases running.len(),
{
    if running.len() > 0 {
        lemma_cleanup_prefix_stopped(running.drop_last(), stopped);
        assert(stopped[running.len() - 1]);
    }
}

/// Stopping the listener and then starting it again, while its thread exists,
/// resumes it: it listens again and plays nothing, and the start is reported as
/// a success.
pub proof fn lemma_stop_then_start_resumes(l: ListenerView)
    ensures
        ({
            let stopped = stop_listener_spec(l, true).0;
            let (resumed, answer) = start_listener_spec(stopped, true);
            &&& answer is Resumed
            &&& !resumed.stop_all
            &&& resumed.running == Seq::<RunningView>::empty()
        }),
{
}

/// A listener that listens refuses a second start; one that was never spawned
/// asks for its thread.
pub proof fn lemma_start_is_idempotent(l: ListenerView)
    requires
        !l.stop_all,
    ensures
        start_listener_spec(l, true) == (l, ListenerStart::AlreadyRunning),
        start_listener_spec(l, false) == (l, ListenerStart::Spawn),
{
}

} // verus!

//! The editor's state: the saved macros, the macro being edited, and the key
//! and pause chosen for the next brick. Each operation of the editor window is
//! a method here.

use vstd::prelude::*;
use vstd::string::*;
use crate::macros::{Brick, BrickView, Macro, MacroView, brick_views, default_macro, duplicate_strings, macro_complete, macro_views, string_views};

verus! {

/// Everything the editor keeps, and what is saved to disk.
#[derive(Debug)]
pub struct AppState {
    pub macros: Vec<Macro>,
    pub new_macro: Macro,
    /// The key for the next brick, as a `KeyboardEvent.code` string.
    pub selected_key: String,
    /// The pause for the next brick, in seconds, as the bit pattern of an
    /// IEEE-754 double.
    pub selected_time: u64,
}

#[verifier::ext_equal]
pub struct AppStateView {
    pub macros: Seq<MacroView>,
    pub new_macro: MacroView,
    pub selected_key: Seq<char>,
    pub selected_time: u64,
}

impl View for AppState {
    type V = AppStateView;

    open spec fn view(&self) -> AppStateView {
        AppStateView {
            macros: macro_views(self.macros@),
            new_macro: self.new_macro@,
            selected_key: self.selected_key@,
            selected_time: self.selected_time,
        }
    }
}

/// The bit pattern of the double 1.0: one second.
pub open spec fn one_second_bits() -> u64 {
    0x3FF0_0000_0000_0000u64
}

/// The state the editor starts from when nothing was saved: no macros, a fresh
/// macro, the key "KeyA" and a pause of one second.
pub open spec fn initial_state() -> AppStateView {
    AppStateView {
        macros: Seq::empty(),
        new_macro: default_macro(),
        selected_key: "KeyA"@,
        selected_time: one_second_bits(),
    }
}

pub open spec fn create_new_macro_spec(s: AppStateView) -> AppStateView {
    AppStateView { new_macro: default_macro(), ..s }
}

/// Editing saved macro `index`: it becomes the macro being edited and leaves
/// the list.
pub open spec fn edit_macro_spec(s: AppStateView, index: int) -> AppStateView {
    AppStateView { macros: s.macros.remove(index), new_macro: s.macros[index], ..s }
}

/// The brick that "add" appends: the selected key and pause.
pub open spec fn selected_brick(s: AppStateView) -> BrickView {
    BrickView { button: s.selected_key, wait: s.selected_time }
}

pub open spec fn add_brick_spec(s: AppStateView) -> AppStateView {
    AppStateView {
        new_macro: MacroView { bricks: s.new_macro.bricks.push(selected_brick(s)), ..s.new_macro },
        ..s
    }
}

pub open spec fn delete_brick_spec(s: AppStateView, index: int) -> AppStateView {
    AppStateView { new_macro: MacroView { bricks: s.new_macro.bricks.remove(index), ..s.new_macro }, ..s }
}

/// Saving appends a copy of the macro being edited to the list, and succeeds,
/// exactly when that macro is complete; else nothing changes.
pub open spec fn save_macro_spec(s: AppStateView) -> (AppStateView, bool) {
    if macro_complete(s.new_macro) {
        (AppStateView { macros: s.macros.push(s.new_macro), ..s }, true)
    } else {
        (s, false)
    }
}

impl AppState {
    /// The state the editor starts from when nothing was saved.
    pub fn new() -> (r: AppState)
        ensures
            r@ == initial_state(),
    {
        let r = AppState {
            macros: Vec::new(),
            new_macro: Macro::new(),
            selected_key: String::from_str("KeyA"),
            selected_time: 0x3FF0_0000_0000_0000u64,
        };
        assert(r@.macros =~= Seq::<MacroView>::empty());
        r
    }

    /// Chooses the key for the next brick.
    pub fn read_key(&mut self, key_code: String)
        ensures
            final(self)@ == (AppStateView { selected_key: key_code@, ..old(self)@ }),
    {
        self.selected_key = key_code;
    }

    /// Chooses the pause for the next brick (bit pattern of the seconds).
    pub fn set_time(&mut self, time: u64)
        ensures
            final(self)@ == (AppStateView { selected_time: time, ..old(self)@ }),
    {
        self.selected_time = time;
    }

    /// Starts editing a fresh macro; the one being edited is dropped.
    pub fn create_new_macro(&mut self)
        ensures
            final(self)@ == create_new_macro_spec(old(self)@),
    {
        self.new_macro = Macro::new();
    }

    /// Takes saved macro `index` off the list to edit it.
    pub fn edit_macro(&mut self, index: usize)
        requires
            index < old(self).macros@.len(),
        ensures
            final(self)@ == edit_macro_spec(old(self)@, index as int),
    {
        let ghost mv = macro_views(self.macros@);
        let m = self.macros.remove(index);
        self.new_macro = m;
        assert(macro_views(self.macros@) =~= mv.remove(index as int));
    }

    /// Appends a brick with the selected key and pause to the macro being edited.
    pub fn add_brick(&mut self)
        ensures
            final(self)@ == add_brick_spec(old(self)@),
    {
        let ghost bv = brick_views(self.new_macro.bricks@);
        let brick = Brick { button: self.selected_key.clone(), wait: self.selected_time };
        self.new_macro.bricks.push(brick);
        assert(brick_views(self.new_macro.bricks@) =~= bv.push(selected_brick(old(self)@)));
    }

    /// Saves a copy of the macro being edited, if it is complete. Returns
    /// whether it was saved.
    pub fn save_macro(&mut self) -> (saved: bool)
        ensures
            (final(self)@, saved) == save_macro_spec(old(self)@),
    {
        if !self.new_macro.is_complete() {
            return false;
        }
        let ghost mv = macro_views(self.macros@);
        let to_push = self.new_macro.duplicate();
        self.macros.push(to_push);
        assert(macro_views(self.macros@) =~= mv.push(old(self)@.new_macro));
        true
    }

    /// Removes brick `index` of the macro being edited.
    pub fn delete_brick(&mut self, index: usize)
        requires
            index < old(self).new_macro.bricks@.len(),
        ensures
            final(self)@ == delete_brick_spec(old(self)@, index as int),
    {
        let ghost bv = brick_views(self.new_macro.bricks@);
        let _ = self.new_macro.bricks.remove(index);
        assert(brick_views(self.new_macro.bricks@) =~= bv.remove(index as int));
    }

    /// Renames the macro being edited.
    pub fn set_new_name(&mut self, name: String)
        ensures
            final(self)@ == (AppStateView { new_macro: MacroView { name: name@, ..old(self)@.new_macro }, ..old(self)@ }),
    {
        self.new_macro.name = name;
    }

    /// Sets the key binding of the macro being edited.
    pub fn set_key_bind(&mut self, key_bind: Vec<String>)
        ensures
            final(self)@ == (AppStateView {
                new_macro: MacroView { key_bind: string_views(key_bind@), ..old(self)@.new_macro },
                ..old(self)@
            }),
    {
        self.new_macro.key_bind = key_bind;
    }

    /// Sets whether the macro being edited loops.
    pub fn set_loop(&mut self, has_loop: bool)
        ensures
            final(self)@ == (AppStateView { new_macro: MacroView { has_loop, ..old(self)@.new_macro }, ..old(self)@ }),
    {
        self.new_macro.has_loop = has_loop;
    }

    /// The selected key.
    pub fn get_selected_key(&self) -> (r: String)
        ensures
            r@ == self@.selected_key,
    {
        self.selected_key.clone()
    }

    /// A copy of the macro being edited.
    pub fn get_new_macro(&self) -> (r: Macro)
        ensures
            r@ == self@.new_macro,
    {
        self.new_macro.duplicate()
    }

    /// A copy of the saved macros.
    pub fn get_macros(&self) -> (r: Vec<Macro>)
        ensures
            macro_views(r@) == self@.macros,
    {
        let mut r: Vec<Macro> = Vec::new();
        let mut i: usize = 0;
        while i < self.macros.len()
            invariant
                i <= self.macros@.len(),
                r@.len() == i,
                forall|k: int| 0 <= k < i ==> #[trigger] r@[k]@ == self.macros@[k]@,
            decreases self.macros.len() - i,
        {
            r.push(self.macros[i].duplicate());
            i = i + 1;
        }
        assert(macro_views(r@) =~= self@.macros);
        r
    }

    /// A copy of saved macro `index`.
    pub fn get_macro(&self, index: usize) -> (r: Macro)
        requires
            index < self.macros@.len(),
        ensures
            r@ == self@.macros[index as int],
    {
        self.macros[index].duplicate()
    }

    /// The name of the macro being edited.
    pub fn get_new_name(&self) -> (r: String)
        ensures
            r@ == self@.new_macro.name,
    {
        self.new_macro.name.clone()
    }

    /// The key binding of the macro being edited.
    pub fn get_key_bind(&self) -> (r: Vec<String>)
        ensures
            string_views(r@) == self@.new_macro.key_bind,
    {
        duplicate_strings(&self.new_macro.key_bind)
    }

    /// Whether the macro being edited loops.
    pub fn get_new_has_loop(&self) -> (r: bool)
        ensures
            r == self@.new_macro.has_loop,
    {
        self.new_macro.has_loop
    }
}

// ---------------------------------------------------------------------------
// Laws
// ---------------------------------------------------------------------------

/// Every saved macro is complete.
pub open spec fn all_complete(s: AppStateView) -> bool {
    forall|k: int| 0 <= k < s.macros.len() ==> macro_complete(#[trigger] s.macros[k])
}

/// No operation of the editor puts an incomplete macro on the saved list: if
/// every saved macro was complete before, every one is after.
pub proof fn lemma_operations_keep_saved_macros_complete(s: AppStateView, i: int, j: int)
    requires
        all_complete(s),
    ensures
        all_complete(create_new_macro_spec(s)),
        all_complete(add_brick_spec(s)),
        all_complete(save_macro_spec(s).0),
        0 <= i < s.macros.len() ==> all_complete(edit_macro_spec(s, i)),
        0 <= j < s.new_macro.bricks.len() ==> all_complete(delete_brick_spec(s, j)),
{
    if 0 <= i < s.macros.len() {
        let t = edit_macro_spec(s, i);
        assert forall|k: int| 0 <= k < t.macros.len() implies macro_complete(#[trigger] t.macros[k]) by {
            if k < i {
                assert(t.macros[k] == s.macros[k]);
            } else {
                assert(t.macros[k] == s.macros[k + 1]);
            }
        }
    }
    let u = save_macro_spec(s).0;
    assert forall|k: int| 0 <= k < u.macros.len() implies macro_complete(#[trigger] u.macros[k]) by {
        if k < s.macros.len() {
            assert(u.macros[k] == s.macros[k]);
        }
    }
}

/// Editing a complete saved macro and saving it again keeps the same macros:
/// the edited one moves to the end of the list, and stays the one being edited.
pub proof fn lemma_edit_then_save_keeps_macros(s: AppStateView, i: int)
    requires
        0 <= i < s.macros.len(),
        macro_complete(s.macros[i]),
    ensures
        ({
            let (t, saved) = save_macro_spec(edit_macro_spec(s, i));
            &&& saved
            &&& t.macros == s.macros.remove(i).push(s.macros[i])
            &&& t.macros.to_multiset() == s.macros.to_multiset()
            &&& t.new_macro == s.macros[i]
        }),
{
    broadcast use vstd::multiset::group_multiset_axioms;
    broadcast use vstd::seq_lib::to_multiset_remove;
    broadcast use vstd::seq_lib::to_multiset_build;

    let x = s.macros[i];
    assert(s.macros.to_multiset().count(x) > 0) by {
        vstd::seq_lib::to_multiset_contains(s.macros, x);
        assert(s.macros.contains(x));
    }
    assert(s.macros.remove(i).push(x).to_multiset() =~= s.macros.to_multiset());
}

/// Saving succeeds exactly when the macro being edited has a brick, a key in
/// its binding and a non-empty name, and then appends it to the saved macros
/// and changes nothing else; else nothing changes.
pub proof fn lemma_save_condition(s: AppStateView)
    ensures
        save_macro_spec(s).1 <==> (s.new_macro.bricks.len() > 0 && s.new_macro.key_bind.len() > 0
            && s.new_macro.name.len() > 0),
        save_macro_spec(s).1 ==> save_macro_spec(s).0 == (AppStateView { macros: s.macros.push(s.new_macro), ..s }),
        !save_macro_spec(s).1 ==> save_macro_spec(s).0 == s,
{
}

/// A fresh macro that got a brick and a key binding can be saved under the
/// name it was given, "Default name".
pub proof fn lemma_fresh_macro_with_brick_and_binding_saves(s: AppStateView, key_bind: Seq<Seq<char>>)
    requires
        key_bind.len() > 0,
    ensures
        ({
            let t0 = add_brick_spec(create_new_macro_spec(s));
            let t = AppStateView { new_macro: MacroView { key_bind, ..t0.new_macro }, ..t0 };
            &&& save_macro_spec(t).1
            &&& save_macro_spec(t).0.macros == s.macros.push(t.new_macro)
            &&& t.new_macro.name == "Default name"@
        }),
{
    reveal_strlit("Default name");
}

/// Adding a brick appends one brick, made of the selected key and the selected
/// pause, after the bricks already there; nothing else changes.
pub proof fn lemma_add_brick_appends_selection(s: AppStateView)
    ensures
        ({
            let t = add_brick_spec(s);
            &&& t.new_macro.bricks.len() == s.new_macro.bricks.len() + 1
            &&& forall|k: int| 0 <= k < s.new_macro.bricks.len() ==> #[trigger] t.new_macro.bricks[k] == s.new_macro.bricks[k]
            &&& t.new_macro.bricks.last().button == s.selected_key
            &&& t.new_macro.bricks.last().wait == s.selected_time
            &&& t.new_macro.key_bind == s.new_macro.key_bind
            &&& t.new_macro.name == s.new_macro.name
            &&& t.new_macro.has_loop == s.new_macro.has_loop
            &&& t.macros == s.macros
            &&& t.selected_key == s.selected_key
            &&& t.selected_time == s.selected_time
        }),
{
}

/// Deleting brick `index` removes exactly that brick: the bricks before it stay
/// where they were, those after it move down by one, and nothing else changes.
pub proof fn lemma_delete_brick_removes_that_brick(s: AppStateView, index: int)
    requires
        0 <= index < s.new_macro.bricks.len(),
    ensures
        ({
            let t = delete_brick_spec(s, index);
            let old_bricks = s.new_macro.bricks;
            &&& t.new_macro.bricks.len() == old_bricks.len() - 1
            &&& forall|k: int| 0 <= k < index ==> #[trigger] t.new_macro.bricks[k] == old_bricks[k]
            &&& forall|k: int| index <= k < old_bricks.len() - 1 ==> #[trigger] t.new_macro.bricks[k] == old_bricks[k + 1]
            &&& index == 0 ==> t.new_macro.bricks == old_bricks.drop_first()
            &&& t.new_macro.key_bind == s.new_macro.key_bind
            &&& t.new_macro.name == s.new_macro.name
            &&& t.new_macro.has_loop == s.new_macro.has_loop
            &&& t.macros == s.macros
            &&& t.selected_key == s.selected_key
            &&& t.selected_time == s.selected_time
        }),
{
    if index == 0 {
        assert(s.new_macro.bricks.remove(0) =~= s.new_macro.bricks.drop_first());
    }
}

/// Adding a brick and then deleting the last brick gives back the macro being
/// edited as it was.
pub proof fn lemma_add_then_delete_last_brick(s: AppStateView)
    ensures
        delete_brick_spec(add_brick_spec(s), s.new_macro.bricks.len() as int) == s,
{
    assert(s.new_macro.bricks.push(selected_brick(s)).remove(s.new_macro.bricks.len() as int) =~= s.new_macro.bricks);
}

/// Starting a fresh macro forgets the one being edited; the saved macros and
/// the selection stay.
pub proof fn lemma_new_macro_is_fresh(s: AppStateView)
    ensures
        create_new_macro_spec(s).new_macro == default_macro(),
        create_new_macro_spec(s).macros == s.macros,
        !macro_complete(create_new_macro_spec(s).new_macro),
        save_macro_spec(create_new_macro_spec(s)) == (create_new_macro_spec(s), false),
{
}

} // verus!

//! Macros and their bricks.

use vstd::prelude::*;
use vstd::string::*;

verus! {

/// One step of a macro: click `button`, then pause.
#[derive(Debug)]
pub struct Brick {
    /// The key, as a browser `KeyboardEvent.code` string such as `"KeyA"`.
    pub button: String,
    /// The pause after the click, in seconds, held as the bit pattern of an
    /// IEEE-754 double (`f64::to_bits`). The library never computes with it.
    pub wait: u64,
}

/// What a brick holds, as plain values.
pub struct BrickView {
    pub button: Seq<char>,
    pub wait: u64,
}

impl View for Brick {
    type V = BrickView;

    open spec fn view(&self) -> BrickView {
        BrickView { button: self.button@, wait: self.wait }
    }
}

/// A named sequence of bricks, started and stopped by a key binding.
#[derive(Debug)]
pub struct Macro {
    pub bricks: Vec<Brick>,
    /// The keys that must be held together to start or stop the macro.
    pub key_bind: Vec<String>,
    pub name: String,
    /// Whether the bricks are played again and again until the macro is stopped.
    pub has_loop: bool,
}

/// What a macro holds, as plain values.
pub struct MacroView {
    pub bricks: Seq<BrickView>,
    pub key_bind: Seq<Seq<char>>,
    pub name: Seq<char>,
    pub has_loop: bool,
}

pub open spec fn brick_views(s: Seq<Brick>) -> Seq<BrickView> {
    s.map_values(|b: Brick| b@)
}

pub open spec fn string_views(s: Seq<String>) -> Seq<Seq<char>> {
    s.map_values(|k: String| k@)
}

pub open spec fn macro_views(s: Seq<Macro>) -> Seq<MacroView> {
    s.map_values(|m: Macro| m@)
}

impl View for Macro {
    type V = MacroView;

    open spec fn view(&self) -> MacroView {
        MacroView {
            bricks: brick_views(self.bricks@),
            key_bind: string_views(self.key_bind@),
            name: self.name@,
            has_loop: self.has_loop,
        }
    }
}

/// The name a fresh macro gets.
pub open spec fn default_macro_name() -> Seq<char> {
    "Default name"@
}

/// The macro that a fresh editor starts from: no bricks, no key binding, the
/// default name, no looping.
pub open spec fn default_macro() -> MacroView {
    MacroView {
        bricks: Seq::empty(),
        key_bind: Seq::empty(),
        name: default_macro_name(),
        has_loop: false,
    }
}

/// A macro can be saved when it has at least one brick, at least one key in its
/// binding and a name that is not empty.
pub open spec fn macro_complete(m: MacroView) -> bool {
    m.bricks.len() > 0 && m.key_bind.len() > 0 && m.name.len() > 0
}

/// A macro can be saved exactly when it has a brick, a key in its binding and
/// a name of at least one character, whatever that name is; the name a fresh
/// macro gets is such a name.
pub proof fn lemma_complete_means_nothing_empty(m: MacroView)
    ensures
        macro_complete(m) <==> (m.bricks.len() > 0 && m.key_bind.len() > 0 && m.name.len() > 0),
        default_macro_name().len() == 12,
        m.bricks.len() > 0 && m.key_bind.len() > 0 && m.name == default_macro_name() ==> macro_complete(m),
{
    reveal_strlit("Default name");
}

impl Brick {
    /// A brick with the same button and pause.
    pub fn duplicate(&self) -> (r: Brick)
        ensures
            r@ == self@,
    {
        Brick { button: self.button.clone(), wait: self.wait }
    }
}

/// A copy of a list of strings, element by element.
pub fn duplicate_strings(v: &Vec<String>) -> (r: Vec<String>)
    ensures
        string_views(r@) == string_views(v@),
{
    let mut r: Vec<String> = Vec::new();
    let mut i: usize = 0;
    while i < v.len()
        invariant
            i <= v.len(),
            r@.len() == i,
            forall|k: int| 0 <= k < i ==> #[trigger] r@[k]@ == v@[k]@,
        decreases v.len() - i,
    {
        r.push(v[i].clone());
        i = i + 1;
    }
    assert(string_views(r@) =~= string_views(v@));
    r
}

/// A copy of a list of bricks, element by element.
pub fn duplicate_bricks(v: &Vec<Brick>) -> (r: Vec<Brick>)
    ensures
        brick_views(r@) == brick_views(v@),
{
    let mut r: Vec<Brick> = Vec::new();
    let mut i: usize = 0;
    while i < v.len()
        invariant
            i <= v.len(),
            r@.len() == i,
            forall|k: int| 0 <= k < i ==> #[trigger] r@[k]@ == v@[k]@,
        decreases v.len() - i,
    {
        r.push(v[i].duplicate());
        i = i + 1;
    }
    assert(brick_views(r@) =~= brick_views(v@));
    r
}

impl Macro {
    /// A fresh macro: no bricks, no key binding, named "Default name", not looping.
    pub fn new() -> (r: Macro)
        ensures
            r@ == default_macro(),
    {
        let r = Macro {
            bricks: Vec::new(),
            key_bind: Vec::new(),
            name: String::from_str("Default name"),
            has_loop: false,
        };
        assert(r@.bricks =~= Seq::<BrickView>::empty());
        assert(r@.key_bind =~= Seq::<Seq<char>>::empty());
        r
    }

    /// A macro with the same bricks, binding, name and looping.
    pub fn duplicate(&self) -> (r: Macro)
        ensures
            r@ == self@,
    {
        Macro {
            bricks: duplicate_bricks(&self.bricks),
            key_bind: duplicate_strings(&self.key_bind),
            name: self.name.clone(),
            has_loop: self.has_loop,
        }
    }

    /// Whether the macro may be saved: it has bricks, a key binding and a name.
    pub fn is_complete(&self) -> (r: bool)
        ensures
            r == macro_complete(self@),
    {
        self.bricks.len() > 0 && self.key_bind.len() > 0 && !self.name.as_str().is_empty()
    }
}

} // verus!

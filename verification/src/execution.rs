//! Playing a macro, one decision at a time. The caller performs each action
//! (a key click and the pause after it) and reports, before each decision,
//! whether the macro has been told to stop.

use vstd::prelude::*;
use crate::macros::{Macro, MacroView};

verus! {

/// How many times the bricks are played: once, or, for a looping macro, until
/// stopped (bounded by `usize::MAX` passes).
pub open spec fn pass_count(m: MacroView) -> int {
    if m.has_loop {
        usize::MAX as int
    } else {
        1
    }
}

/// Where the playing of a macro stands.
#[derive(Debug, Clone, Copy)]
pub struct MacroCursor {
    /// The number of the current pass, counted from 0.
    pub pass: usize,
    /// The next brick to click in the current pass.
    pub brick: usize,
    /// Whether a pass has begun; if not, the cursor is before pass `pass`.
    pub in_pass: bool,
}

/// What the caller is to do next.
#[derive(Debug, Clone, Copy)]
pub enum MacroAction {
    /// Nothing outside: ask for the next decision.
    Continue,
    /// Click the key of the brick at this index, then wait its pause.
    Press(usize),
    /// The macro is over. With `mark_done` the caller sets the macro's stop
    /// flag; without it the macro was stopped from outside while a pass ran.
    Finish { mark_done: bool },
}

pub open spec fn cursor_ok(m: MacroView, c: MacroCursor) -> bool {
    &&& c.brick <= m.bricks.len()
    &&& c.pass <= pass_count(m)
    &&& c.in_pass ==> c.pass < pass_count(m)
    &&& !c.in_pass ==> c.brick == 0
}

/// The cursor before the first pass.
pub open spec fn start_cursor() -> MacroCursor {
    MacroCursor { pass: 0, brick: 0, in_pass: false }
}

/// One decision. Before a pass: finish (marking the macro done) once all
/// passes are played or when stopped, else begin the pass. Within a pass: after
/// the last brick go to before the next pass; else finish without marking when
/// stopped, else click the next brick.
pub open spec fn macro_step_spec(m: MacroView, c: MacroCursor, stopped: bool) -> (MacroCursor, MacroAction) {
    if !c.in_pass {
        if c.pass >= pass_count(m) || stopped {
            (c, MacroAction::Finish { mark_done: true })
        } else {
            (MacroCursor { pass: c.pass, brick: 0, in_pass: true }, MacroAction::Continue)
        }
    } else if c.brick >= m.bricks.len() {
        (MacroCursor { pass: (c.pass + 1) as usize, brick: 0, in_pass: false }, MacroAction::Continue)
    } else if stopped {
        (c, MacroAction::Finish { mark_done: false })
    } else {
        (MacroCursor { pass: c.pass, brick: (c.brick + 1) as usize, in_pass: true }, MacroAction::Press(c.brick))
    }
}

impl MacroCursor {
    /// The cursor before the first pass.
    pub fn new() -> (r: MacroCursor)
        ensures
            r == start_cursor(),
    {
        MacroCursor { pass: 0, brick: 0, in_pass: false }
    }
}

/// Decides the next action for `macro_this`, given whether it has been told to
/// stop, and moves the cursor on.
pub fn execute_macro_step(macro_this: &Macro, cursor: &mut MacroCursor, stopped: bool) -> (a: MacroAction)
    requires
        cursor_ok(macro_this@, *old(cursor)),
    ensures
        (*final(cursor), a) == macro_step_spec(macro_this@, *old(cursor), stopped),
        cursor_ok(macro_this@, *final(cursor)),
{
    let passes: usize = if macro_this.has_loop {
        usize::MAX
    } else {
        1
    };
    if !cursor.in_pass {
        if cursor.pass >= passes || stopped {
            MacroAction::Finish { mark_done: true }
        } else {
            cursor.brick = 0;
            cursor.in_pass = true;
            MacroAction::Continue
        }
    } else if cursor.brick >= macro_this.bricks.len() {
        cursor.pass = cursor.pass + 1;
        cursor.brick = 0;
        cursor.in_pass = false;
        MacroAction::Continue
    } else if stopped {
        MacroAction::Finish { mark_done: false }
    } else {
        let b = cursor.brick;
        cursor.brick = cursor.brick + 1;
        MacroAction::Press(b)
    }
}

// ---------------------------------------------------------------------------
// Laws
// ---------------------------------------------------------------------------

/// The actions decided for the stop reports `stops`, one report per decision,
/// up to and with the first `Finish`.
pub open spec fn run_macro(m: MacroView, c: MacroCursor, stops: Seq<bool>) -> Seq<MacroAction>
    decreases stops.len(),
{
    if stops.len() == 0 {
        Seq::empty()
    } else {
        let (next, a) = macro_step_spec(m, c, stops[0]);
        if a is Finish {
            seq![a]
        } else {
            seq![a] + run_macro(m, next, stops.drop_first())
        }
    }
}

/// `n` reports that no stop was asked.
pub open spec fn no_stops(n: nat) -> Seq<bool> {
    Seq::new(n, |i: int| false)
}

/// The clicks of bricks `from`, `from + 1`, ... up to `to` (excluded).
pub open spec fn presses(from: int, to: int) -> Seq<MacroAction> {
    Seq::new((to - from) as nat, |i: int| MacroAction::Press((from + i) as usize))
}

proof fn lemma_rest_of_pass(m: MacroView, p: usize, k: usize, rest: Seq<bool>)
    requires
        cursor_ok(m, MacroCursor { pass: p, brick: k, in_pass: true }),
        m.bricks.len() <= usize::MAX,
    ensures
        run_macro(m, MacroCursor { pass: p, brick: k, in_pass: true }, no_stops((m.bricks.len() - k + 1) as nat) + rest)
            == presses(k as int, m.bricks.len() as int) + seq![MacroAction::Continue] + run_macro(
            m,
            MacroCursor { pass: (p + 1) as usize, brick: 0, in_pass: false },
            rest,
        ),
    decreases m.bricks.len() - k,
{
    let c = MacroCursor { pass: p, brick: k, in_pass: true };
    let n = m.bricks.len();
    let stops = no_stops((n - k + 1) as nat) + rest;
    assert(stops[0] == false);
    assert(stops.drop_first() =~= no_stops((n - k) as nat) + rest);
    if k >= n {
        assert(no_stops(0) + rest =~= rest);
        assert(stops.drop_first() =~= rest);
        let next = MacroCursor { pass: (p + 1) as usize, brick: 0, in_pass: false };
        assert(macro_step_spec(m, c, false) == (next, MacroAction::Continue));
        assert(run_macro(m, c, stops) == seq![MacroAction::Continue] + run_macro(m, next, rest));
        assert(presses(k as int, n as int) =~= Seq::<MacroAction>::empty());
        assert(seq![MacroAction::Continue] + run_macro(m, MacroCursor { pass: (p + 1) as usize, brick: 0, in_pass: false }, rest)
            =~= presses(k as int, n as int) + seq![MacroAction::Continue] + run_macro(
            m,
            MacroCursor { pass: (p + 1) as usize, brick: 0, in_pass: false },
            rest,
        ));
    } else {
        let next = MacroCursor { pass: p, brick: (k + 1) as usize, in_pass: true };
        lemma_rest_of_pass(m, p, (k + 1) as usize, rest);
        assert(macro_step_spec(m, c, false) == (next, MacroAction::Press(k)));
        assert(no_stops((n - k) as nat) == no_stops((n - (k + 1) + 1) as nat));
        assert(presses(k as int, n as int) =~= seq![MacroAction::Press(k)] + presses(k + 1, n as int));
        let tail = run_macro(m, MacroCursor { pass: (p + 1) as usize, brick: 0, in_pass: false }, rest);
        assert(seq![MacroAction::Press(k)] + (presses(k + 1, n as int) + seq![MacroAction::Continue] + tail)
            =~= presses(k as int, n as int) + seq![MacroAction::Continue] + tail);
    }
}

/// Each pass, when no stop is asked, clicks every brick once, in order, between
/// a step that begins it and a step that ends it; then the next pass follows.
pub proof fn lemma_pass_plays_every_brick(m: MacroView, p: usize, rest: Seq<bool>)
    requires
        p < pass_count(m),
        m.bricks.len() <= usize::MAX,
    ensures
        run_macro(m, MacroCursor { pass: p, brick: 0, in_pass: false }, no_stops(m.bricks.len() + 2) + rest)
            == seq![MacroAction::Continue] + presses(0, m.bricks.len() as int) + seq![MacroAction::Continue]
            + run_macro(m, MacroCursor { pass: (p + 1) as usize, brick: 0, in_pass: false }, rest),
{
    let n = m.bricks.len();
    let stops = no_stops(n + 2) + rest;
    assert(stops[0] == false);
    assert(stops.drop_first() =~= no_stops((n - 0 + 1) as nat) + rest);
    lemma_rest_of_pass(m, p, 0, rest);
    let tail = run_macro(m, MacroCursor { pass: (p + 1) as usize, brick: 0, in_pass: false }, rest);
    assert(seq![MacroAction::Continue] + (presses(0, n as int) + seq![MacroAction::Continue] + tail)
        =~= seq![MacroAction::Continue] + presses(0, n as int) + seq![MacroAction::Continue] + tail);
}

/// A looping macro plays pass after pass while no stop is asked: before every
/// pass `p` below `usize::MAX` it begins the pass and clicks every brick in
/// order, and it ends by itself only once `usize::MAX` passes are played.
pub proof fn lemma_looping_macro_keeps_playing(m: MacroView, p: usize, rest: Seq<bool>)
    requires
        m.has_loop,
        p < usize::MAX,
        m.bricks.len() <= usize::MAX,
    ensures
        run_macro(m, MacroCursor { pass: p, brick: 0, in_pass: false }, no_stops(m.bricks.len() + 2) + rest)
            == seq![MacroAction::Continue] + presses(0, m.bricks.len() as int) + seq![MacroAction::Continue]
            + run_macro(m, MacroCursor { pass: (p + 1) as usize, brick: 0, in_pass: false }, rest),
        run_macro(m, MacroCursor { pass: usize::MAX, brick: 0, in_pass: false }, seq![false])
            == seq![MacroAction::Finish { mark_done: true }],
{
    assert(p < pass_count(m));
    lemma_pass_plays_every_brick(m, p, rest);
    assert(seq![false][0] == false);
}

/// A macro that does not loop, when no stop is asked, clicks each brick once
/// in order and then finishes, marking itself done.
pub proof fn lemma_single_pass_macro(m: MacroView)
    requires
        !m.has_loop,
        m.bricks.len() <= usize::MAX,
    ensures
        run_macro(m, start_cursor(), no_stops(m.bricks.len() + 3))
            == seq![MacroAction::Continue] + presses(0, m.bricks.len() as int) + seq![
            MacroAction::Continue,
            MacroAction::Finish { mark_done: true },
        ],
{
    let n = m.bricks.len();
    assert(no_stops(n + 3) =~= no_stops(n + 2) + seq![false]);
    lemma_pass_plays_every_brick(m, 0, seq![false]);
    let after = MacroCursor { pass: 1, brick: 0, in_pass: false };
    assert(seq![false].drop_first() =~= Seq::<bool>::empty());
    assert(run_macro(m, after, seq![false]) == seq![MacroAction::Finish { mark_done: true }]);
    assert(seq![MacroAction::Continue] + presses(0, n as int) + seq![MacroAction::Continue]
        + seq![MacroAction::Finish { mark_done: true }] =~= seq![MacroAction::Continue] + presses(0, n as int)
        + seq![MacroAction::Continue, MacroAction::Finish { mark_done: true }]);
}

/// A stop reported before a pass ends the macro at once and marks it done; a
/// stop reported before a click ends it at once without marking it.
pub proof fn lemma_stop_ends_macro(m: MacroView, c: MacroCursor, rest: Seq<bool>)
    requires
        cursor_ok(m, c),
        !c.in_pass || c.brick < m.bricks.len(),
    ensures
        run_macro(m, c, seq![true] + rest) == seq![MacroAction::Finish { mark_done: !c.in_pass }],
{
    assert((seq![true] + rest)[0] == true);
}

} // verus!

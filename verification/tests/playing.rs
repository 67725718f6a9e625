use macro_tools::execution::{execute_macro_step, MacroAction, MacroCursor};
use macro_tools::macros::{Brick, Macro};

fn mac(buttons: &[&str], has_loop: bool) -> Macro {
    Macro {
        bricks: buttons
            .iter()
            .map(|b| Brick { button: b.to_string(), wait: 0.0f64.to_bits() })
            .collect(),
        key_bind: vec!["KeyQ".to_string()],
        name: "m".to_string(),
        has_loop,
    }
}

fn describe(a: MacroAction) -> String {
    match a {
        MacroAction::Continue => "c".to_string(),
        MacroAction::Press(i) => format!("p{}", i),
        MacroAction::Finish { mark_done } => format!("f{}", mark_done),
    }
}

fn run(m: &Macro, stops: &[bool]) -> Vec<String> {
    let mut c = MacroCursor::new();
    let mut out = Vec::new();
    for &s in stops {
        let a = execute_macro_step(m, &mut c, s);
        out.push(describe(a));
        if let MacroAction::Finish { .. } = a {
            break;
        }
    }
    out
}

#[test]
fn single_pass_plays_each_brick_once() {
    let m = mac(&["KeyA", "KeyB", "KeyC"], false);
    let out = run(&m, &[false; 10]);
    assert_eq!(out, vec!["c", "p0", "p1", "p2", "c", "ftrue"]);
}

#[test]
fn empty_single_pass_macro_finishes() {
    let m = mac(&[], false);
    assert_eq!(run(&m, &[false; 5]), vec!["c", "c", "ftrue"]);
}

#[test]
fn looping_macro_repeats() {
    let m = mac(&["KeyA", "KeyB"], true);
    let out = run(&m, &[false; 9]);
    assert_eq!(out, vec!["c", "p0", "p1", "c", "c", "p0", "p1", "c", "c"]);
}

#[test]
fn stop_during_pass_finishes_without_mark() {
    let m = mac(&["KeyA", "KeyB"], true);
    let out = run(&m, &[false, false, true, false]);
    assert_eq!(out, vec!["c", "p0", "ffalse"]);
}

#[test]
fn stop_before_pass_finishes_with_mark() {
    let m = mac(&["KeyA"], true);
    assert_eq!(run(&m, &[true]), vec!["ftrue"]);
    let out = run(&m, &[false, false, false, true]);
    assert_eq!(out, vec!["c", "p0", "c", "ftrue"]);
}

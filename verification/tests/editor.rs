use macro_tools::app_state::AppState;
use macro_tools::macros::{Brick, Macro};

fn keys(list: &[&str]) -> Vec<String> {
    list.iter().map(|k| k.to_string()).collect()
}

fn sample(name: &str) -> Macro {
    Macro {
        bricks: vec![Brick { button: "KeyA".to_string(), wait: 0.5f64.to_bits() }],
        key_bind: keys(&["ControlLeft", "KeyQ"]),
        name: name.to_string(),
        has_loop: false,
    }
}

#[test]
fn initial_state_matches_first_launch() {
    let s = AppState::new();
    assert!(s.macros.is_empty());
    assert_eq!(s.selected_key, "KeyA");
    assert_eq!(f64::from_bits(s.selected_time), 1.0);
    assert_eq!(s.new_macro.name, "Default name");
    assert!(s.new_macro.bricks.is_empty());
    assert!(s.new_macro.key_bind.is_empty());
    assert!(!s.new_macro.has_loop);
}

#[test]
fn add_brick_uses_selected_key_and_time() {
    let mut s = AppState::new();
    s.read_key("KeyW".to_string());
    s.set_time(2.5f64.to_bits());
    s.add_brick();
    s.read_key("Space".to_string());
    s.add_brick();
    assert_eq!(s.new_macro.bricks.len(), 2);
    assert_eq!(s.new_macro.bricks[0].button, "KeyW");
    assert_eq!(f64::from_bits(s.new_macro.bricks[0].wait), 2.5);
    assert_eq!(s.new_macro.bricks[1].button, "Space");
    assert_eq!(f64::from_bits(s.new_macro.bricks[1].wait), 2.5);
}

#[test]
fn save_refuses_incomplete_macros() {
    let mut s = AppState::new();
    // no bricks
    s.set_key_bind(keys(&["KeyQ"]));
    assert!(!s.save_macro());
    // bricks but no key binding
    s.add_brick();
    s.set_key_bind(Vec::new());
    assert!(!s.save_macro());
    // binding but empty name
    s.set_key_bind(keys(&["KeyQ"]));
    s.set_new_name(String::new());
    assert!(!s.save_macro());
    assert!(s.macros.is_empty());
    // complete
    s.set_new_name("jump".to_string());
    assert!(s.save_macro());
    assert_eq!(s.macros.len(), 1);
    assert_eq!(s.macros[0].name, "jump");
    assert_eq!(s.macros[0].key_bind, keys(&["KeyQ"]));
    assert_eq!(s.macros[0].bricks.len(), 1);
    // the edited macro stays in the editor
    assert_eq!(s.new_macro.name, "jump");
}

#[test]
fn saving_twice_keeps_two_copies() {
    let mut s = AppState::new();
    s.new_macro = sample("twice");
    assert!(s.save_macro());
    assert!(s.save_macro());
    assert_eq!(s.macros.len(), 2);
    assert_eq!(s.macros[0].name, "twice");
    assert_eq!(s.macros[1].name, "twice");
}

#[test]
fn edit_then_save_moves_macro_to_end() {
    let mut s = AppState::new();
    s.macros = vec![sample("a"), sample("b"), sample("c")];
    s.edit_macro(0);
    assert_eq!(s.new_macro.name, "a");
    let names: Vec<String> = s.macros.iter().map(|m| m.name.clone()).collect();
    assert_eq!(names, vec!["b", "c"]);
    assert!(s.save_macro());
    let names: Vec<String> = s.macros.iter().map(|m| m.name.clone()).collect();
    assert_eq!(names, vec!["b", "c", "a"]);
}

#[test]
fn add_then_delete_last_brick_restores() {
    let mut s = AppState::new();
    s.new_macro = sample("x");
    s.read_key("KeyZ".to_string());
    s.add_brick();
    assert_eq!(s.new_macro.bricks.len(), 2);
    s.delete_brick(1);
    assert_eq!(s.new_macro.bricks.len(), 1);
    assert_eq!(s.new_macro.bricks[0].button, "KeyA");
}

#[test]
fn delete_brick_removes_the_given_one() {
    let mut s = AppState::new();
    for k in ["KeyA", "KeyB", "KeyC"] {
        s.read_key(k.to_string());
        s.add_brick();
    }
    s.delete_brick(1);
    let buttons: Vec<String> = s.new_macro.bricks.iter().map(|b| b.button.clone()).collect();
    assert_eq!(buttons, vec!["KeyA", "KeyC"]);
}

#[test]
fn create_new_macro_resets_editor() {
    let mut s = AppState::new();
    s.new_macro = sample("old");
    s.macros = vec![sample("kept")];
    s.create_new_macro();
    assert_eq!(s.new_macro.name, "Default name");
    assert!(s.new_macro.bricks.is_empty());
    assert_eq!(s.macros.len(), 1);
    assert!(!s.save_macro());
}

#[test]
fn setters_and_getters_agree() {
    let mut s = AppState::new();
    s.set_new_name("name".to_string());
    s.set_key_bind(keys(&["AltLeft", "KeyF"]));
    s.set_loop(true);
    s.read_key("KeyR".to_string());
    assert_eq!(s.get_new_name(), "name");
    assert_eq!(s.get_key_bind(), keys(&["AltLeft", "KeyF"]));
    assert!(s.get_new_has_loop());
    assert_eq!(s.get_selected_key(), "KeyR");
    let m = s.get_new_macro();
    assert_eq!(m.name, "name");
    assert!(m.has_loop);
    s.macros = vec![sample("p"), sample("q")];
    assert_eq!(s.get_macro(1).name, "q");
    let all = s.get_macros();
    assert_eq!(all.len(), 2);
    assert_eq!(all[0].name, "p");
    assert_eq!(all[0].bricks[0].button, "KeyA");
}

#[test]
fn macro_copies_are_equal() {
    let m = sample("copy");
    let c = m.duplicate();
    assert_eq!(c.name, m.name);
    assert_eq!(c.key_bind, m.key_bind);
    assert_eq!(c.bricks.len(), m.bricks.len());
    assert_eq!(c.bricks[0].button, m.bricks[0].button);
    assert_eq!(c.bricks[0].wait, m.bricks[0].wait);
    assert_eq!(c.has_loop, m.has_loop);
    assert!(m.is_complete());
    assert!(!Macro::new().is_complete());
}

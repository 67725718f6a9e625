use macro_tools::keys::KeySet;
use macro_tools::listener::{
    check_macro_activation, on_key_event, remove_stopped, start_listener, start_macro, stop_all_macros,
    stop_everything, stop_listener, KeyEvent, ListenerStart, ListenerState,
};
use macro_tools::macros::{Brick, Macro};

fn mac(name: &str, binding: &[&str]) -> Macro {
    Macro {
        bricks: vec![Brick { button: "KeyA".to_string(), wait: 0.1f64.to_bits() }],
        key_bind: binding.iter().map(|k| k.to_string()).collect(),
        name: name.to_string(),
        has_loop: true,
    }
}

fn held(list: &[&str]) -> KeySet {
    let mut s = KeySet::new();
    for k in list {
        s.insert(k.to_string());
    }
    s
}

#[test]
fn key_set_insert_reports_new_keys() {
    let mut s = KeySet::new();
    assert_eq!(s.len(), 0);
    assert!(s.insert("KeyA".to_string()));
    assert!(!s.insert("KeyA".to_string()));
    assert!(s.insert("KeyB".to_string()));
    assert_eq!(s.len(), 2);
    assert!(s.contains(&"KeyA".to_string()));
    s.remove(&"KeyA".to_string());
    assert!(!s.contains(&"KeyA".to_string()));
    assert_eq!(s.len(), 1);
    s.remove(&"KeyZ".to_string());
    assert_eq!(s.len(), 1);
}

#[test]
fn press_then_release_restores_held_keys() {
    let listener = ListenerState::new();
    let mut pressed = held(&["ShiftLeft"]);
    assert!(on_key_event(&listener, &mut pressed, KeyEvent::Press("KeyX".to_string())));
    assert!(!on_key_event(&listener, &mut pressed, KeyEvent::Press("KeyX".to_string())));
    assert!(!on_key_event(&listener, &mut pressed, KeyEvent::Release("KeyX".to_string())));
    assert_eq!(pressed.len(), 1);
    assert!(pressed.contains(&"ShiftLeft".to_string()));
    assert!(!on_key_event(&listener, &mut pressed, KeyEvent::Other));
    assert_eq!(pressed.len(), 1);
}

#[test]
fn paused_listener_ignores_events() {
    let mut listener = ListenerState::new();
    listener.stop_all_flag = true;
    let mut pressed = KeySet::new();
    assert!(!on_key_event(&listener, &mut pressed, KeyEvent::Press("KeyX".to_string())));
    assert_eq!(pressed.len(), 0);
    let macros = vec![mac("m", &["KeyX"])];
    let act = check_macro_activation(&mut listener, &macros, &held(&["KeyX"]));
    assert!(act.to_start.is_empty());
    assert!(act.to_stop.is_empty());
}

#[test]
fn binding_starts_then_stops_macro() {
    let mut listener = ListenerState::new();
    let macros = vec![mac("spam", &["ControlLeft", "KeyQ"]), mac("other", &["KeyP"])];
    let pressed = held(&["ControlLeft", "KeyQ"]);
    let act = check_macro_activation(&mut listener, &macros, &pressed);
    assert_eq!(act.to_start.len(), 1);
    assert_eq!(act.to_start[0].name, "spam");
    assert!(act.to_stop.is_empty());
    for m in act.to_start {
        start_macro(&mut listener, m, 7);
    }
    assert_eq!(listener.running_macros.len(), 1);
    let act = check_macro_activation(&mut listener, &macros, &pressed);
    assert!(act.to_start.is_empty());
    assert_eq!(act.to_stop.len(), 1);
    assert_eq!(act.to_stop[0].handle, 7);
    assert!(listener.running_macros.is_empty());
}

#[test]
fn extra_held_key_neither_stops_nor_restarts() {
    let mut listener = ListenerState::new();
    let macros = vec![mac("spam", &["KeyQ"])];
    start_macro(&mut listener, mac("spam", &["KeyQ"]), 1);
    let act = check_macro_activation(&mut listener, &macros, &held(&["KeyQ", "ShiftLeft"]));
    assert!(act.to_start.is_empty());
    assert!(act.to_stop.is_empty());
    assert_eq!(listener.running_macros.len(), 1);
}

#[test]
fn partial_binding_does_nothing() {
    let mut listener = ListenerState::new();
    let macros = vec![mac("spam", &["ControlLeft", "KeyQ"])];
    let act = check_macro_activation(&mut listener, &macros, &held(&["KeyQ"]));
    assert!(act.to_start.is_empty());
    assert!(act.to_stop.is_empty());
}

#[test]
fn same_name_other_binding_is_another_macro() {
    let mut listener = ListenerState::new();
    start_macro(&mut listener, mac("spam", &["KeyA"]), 1);
    let macros = vec![mac("spam", &["KeyQ"])];
    let act = check_macro_activation(&mut listener, &macros, &held(&["KeyQ"]));
    assert_eq!(act.to_start.len(), 1);
    assert!(act.to_stop.is_empty());
    assert_eq!(listener.running_macros.len(), 1);
}

#[test]
fn identical_macros_listed_twice() {
    // The first copy stops the running entry; the second, finding none left, starts.
    let mut listener = ListenerState::new();
    start_macro(&mut listener, mac("m", &["KeyQ"]), 3);
    let macros = vec![mac("m", &["KeyQ"]), mac("m", &["KeyQ"])];
    let act = check_macro_activation(&mut listener, &macros, &held(&["KeyQ"]));
    assert_eq!(act.to_stop.len(), 1);
    assert_eq!(act.to_start.len(), 1);
    assert!(listener.running_macros.is_empty());
}

#[test]
fn stop_all_drains_in_order() {
    let mut listener = ListenerState::new();
    start_macro(&mut listener, mac("a", &["KeyA"]), 1);
    start_macro(&mut listener, mac("b", &["KeyB"]), 2);
    let drained = stop_all_macros(&mut listener);
    let handles: Vec<u64> = drained.iter().map(|r| r.handle).collect();
    assert_eq!(handles, vec![1, 2]);
    assert!(listener.running_macros.is_empty());
    assert!(!listener.stop_all_flag);
}

#[test]
fn stop_everything_pauses_listener() {
    let mut listener = ListenerState::new();
    start_macro(&mut listener, mac("a", &["KeyA"]), 1);
    let drained = stop_everything(&mut listener);
    assert_eq!(drained.len(), 1);
    assert!(listener.stop_all_flag);
    assert!(listener.running_macros.is_empty());
}

#[test]
fn cleanup_keeps_unstopped_in_order() {
    let mut listener = ListenerState::new();
    for h in 1..=4u64 {
        start_macro(&mut listener, mac("m", &["KeyA"]), h);
    }
    let removed = remove_stopped(&mut listener, &vec![false, true, false, true]);
    let gone: Vec<u64> = removed.iter().map(|r| r.handle).collect();
    assert_eq!(gone, vec![2, 4]);
    let handles: Vec<u64> = listener.running_macros.iter().map(|r| r.handle).collect();
    assert_eq!(handles, vec![1, 3]);
    assert!(remove_stopped(&mut listener, &vec![false, false]).is_empty());
    assert_eq!(listener.running_macros.len(), 2);
    assert_eq!(remove_stopped(&mut listener, &vec![true, true]).len(), 2);
    assert!(listener.running_macros.is_empty());
}

#[test]
fn cleanup_waits_while_paused() {
    let mut listener = ListenerState::new();
    start_macro(&mut listener, mac("m", &["KeyA"]), 1);
    listener.stop_all_flag = true;
    assert!(remove_stopped(&mut listener, &vec![true]).is_empty());
    assert_eq!(listener.running_macros.len(), 1);
}

#[test]
fn listener_lifecycle() {
    let mut listener = ListenerState::new();
    // no thread yet: spawn one
    let r = start_listener(&mut listener, false);
    assert!(matches!(r, ListenerStart::Spawn));
    assert!(r.accepted());
    // thread running and listening: refused
    let r = start_listener(&mut listener, true);
    assert!(matches!(r, ListenerStart::AlreadyRunning));
    assert!(!r.accepted());
    // stop without a thread: nothing
    assert!(stop_listener(&mut listener, false).is_none());
    assert!(!listener.stop_all_flag);
    // stop with a thread: paused, running list drained
    start_macro(&mut listener, mac("m", &["KeyA"]), 9);
    let drained = stop_listener(&mut listener, true).unwrap();
    assert_eq!(drained.len(), 1);
    assert!(listener.stop_all_flag);
    // start again: resumed
    let r = start_listener(&mut listener, true);
    assert!(matches!(r, ListenerStart::Resumed));
    assert!(r.accepted());
    assert!(!listener.stop_all_flag);
}

#[test]
fn untouched_entries_stay_in_order() {
    let mut listener = ListenerState::new();
    start_macro(&mut listener, mac("a", &["KeyA"]), 1);
    start_macro(&mut listener, mac("b", &["KeyB"]), 2);
    start_macro(&mut listener, mac("c", &["KeyC"]), 3);
    let macros = vec![mac("b", &["KeyB"]), mac("d", &["KeyD"])];
    let act = check_macro_activation(&mut listener, &macros, &held(&["KeyB"]));
    let handles: Vec<u64> = listener.running_macros.iter().map(|r| r.handle).collect();
    assert_eq!(handles, vec![1, 3]);
    assert_eq!(act.to_stop.len(), 1);
    assert_eq!(act.to_stop[0].handle, 2);
    assert!(act.to_start.is_empty());
}

#[test]
fn started_are_the_held_idle_macros_in_list_order() {
    let mut listener = ListenerState::new();
    start_macro(&mut listener, mac("running", &["KeyR"]), 1);
    let macros = vec![
        mac("second", &["KeyS"]),
        mac("running", &["KeyR"]),
        mac("unheld", &["KeyU"]),
        mac("first", &["KeyF"]),
    ];
    let act = check_macro_activation(&mut listener, &macros, &held(&["KeyS", "KeyR", "KeyF"]));
    let names: Vec<String> = act.to_start.iter().map(|m| m.name.clone()).collect();
    assert_eq!(names, vec!["second", "first"]);
    // three keys are held but the running macro's binding has one: it keeps playing
    assert!(act.to_stop.is_empty());
    assert_eq!(listener.running_macros.len(), 1);
}

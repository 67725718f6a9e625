# macro_tools

Keyboard macros for the desktop: a macro is a named list of bricks (a key to
click and a pause), started and stopped by holding its key binding.

- `src/` is the library, with its contracts and proofs:
  - `macros.rs`: bricks, macros, copies, and when a macro is complete;
  - `app_state.rs`: the editor's state and every editor operation, with laws;
  - `keys.rs`: the set of held keys;
  - `listener.rs`: which macros a key press starts or stops, the list of
    running macros, the clean-up, pausing and resuming the listener, with laws;
  - `execution.rs`: playing a macro one decision at a time, with laws.
- `app/` is the program around it: the Tauri window and commands, the global
  keyboard hook (rdev), key clicks (enigo), threads, the tray icon and the JSON
  save file (serde_json).
- `tests/` runs the library on concrete values.

Pauses are held in the library as the bit pattern of the `f64` number of
seconds; only `app/` turns them into numbers.

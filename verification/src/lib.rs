//! Keyboard macros: the editing state behind the editor window, the set of held
//! keys, the decision which macros a key press starts or stops, and the stepping
//! of a running macro.

pub mod app_state;
pub mod execution;
pub mod keys;
pub mod listener;
pub mod macros;

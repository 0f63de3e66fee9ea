//! Core logic of a keyboard-driven launcher: the app index and its search,
//! the parsing of file-locator output, the state of the two result lists,
//! the global hot-key bindings and the in-window shortcut decisions.

pub mod keyboard;
pub mod text;
pub mod app_index;
pub mod file_index;
pub mod results;
pub mod window_keys;

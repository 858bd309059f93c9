//! Interactive fuzzy search over a frequency-weighted shell command index.
//!
//! The library holds the verified core of the tool: text utilities, the
//! frequency index with its ranked search, the interaction state machine,
//! and the rendering of display lines. Terminal I/O and history-file
//! reading live outside the library.
pub mod history;
pub mod search;
pub mod text;
pub mod ui;

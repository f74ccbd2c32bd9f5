//! CreamUI's verified core: reactive state, theme tokens and parsing,
//! platform value types, render helpers and the tray icon model.

pub mod seqs;
pub mod reactive;
pub mod context;
pub mod theme;
pub mod persist;
pub mod loader;
pub mod tray;
pub mod platform;
pub mod seat;
pub mod render;
pub mod shaping;
pub mod pointer;

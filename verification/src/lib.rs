//! Clipboard history: the verified core of a keyboard-first clipboard manager.

pub mod item;
pub mod history;
pub mod text;
pub mod clock;
pub mod search;
pub mod session;
pub mod storage;
pub mod paths;
pub mod frame;

//! Verified core of a Wayland clipboard history manager.

pub mod args;
pub mod codec;
pub mod commands;
pub mod constants;
pub mod history;
pub mod history_laws;
pub mod like;
pub mod listing;
pub mod mime;
pub mod paths;
pub mod session;
pub mod text;
pub mod uri;

//! Agent status for tmux windows.

pub mod cli;
pub mod event;
pub mod fs_util;
pub mod hook;
pub mod init;
pub mod json;
pub mod name;
pub mod path;
pub mod reconcile;
pub mod settings;
pub mod shell;
pub mod state;
pub mod sync;
pub mod text;
pub mod tmux;

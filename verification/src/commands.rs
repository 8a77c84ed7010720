//! The store's commands: plain argument records, each with a verified
//! `apply` that performs the command's whole in-memory effect.

pub mod add;
pub mod check;
pub mod create;
pub mod delete;
pub mod deselect;
pub mod info;
pub mod init;
pub mod list;
pub mod read;
pub mod remove;
pub mod select;
pub mod set;
pub mod task;
pub mod unwatch;
pub mod watch;

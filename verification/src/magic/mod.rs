//! Commands of the Magic channels read from plain messages.

pub mod command;

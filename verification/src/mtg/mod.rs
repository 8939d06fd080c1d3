//! Magic: the Gathering commands and the card lists they work on.

pub mod csv;
pub mod card_list;
pub mod store;
pub mod commands;
pub mod access;

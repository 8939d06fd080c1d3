//! Verified core of the Goby Discord bot: card list parsing, the card store
//! and the text of the answers the commands send.

pub mod text;
pub mod mtg;
pub mod admin;
pub mod archipelago;
pub mod magic;
pub mod json;

use vstd::prelude::*;

verus! {

/// State shared by every command invocation.
pub struct Data {
    /// Card lists registered with `/have`.
    pub mtg: mtg::store::Store,
}

} // verus!

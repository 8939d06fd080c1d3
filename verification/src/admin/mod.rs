//! Administration commands and the guild setup they perform.

pub mod commands;
pub mod init;
pub mod role_select;

use vstd::prelude::*;

verus! {

/// Role gating the Magic: the Gathering feature.
pub const MTG_ROLE: &'static str = "Politicien des cartes";

/// Category holding the Magic: the Gathering channels.
pub const MTG_CATEGORY: &'static str = "Magic: le rassemblement";

/// Default text channel of the Magic: the Gathering category.
pub const MTG_CHANNEL: &'static str = "magic-general";

/// Role gating the Archipelago feature.
pub const ARCHI_ROLE: &'static str = "Explorateur des îles";

/// Category holding the Archipelago channels.
pub const ARCHI_CATEGORY: &'static str = "Archipelago";

/// Default text channel of the Archipelago category.
pub const ARCHI_CHANNEL: &'static str = "archipelago-general";

/// Read only channel where members pick their roles.
pub const JOB_CHANNEL: &'static str = "abaye-des-vocations";

} // verus!

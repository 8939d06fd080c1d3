//! Gate of every Magic command: the Magic role, inside the Magic category.
//!
//! The bot runs the checks one after the other, each asking Discord something,
//! and stops at the first that fails, telling the member what is missing
//! rather than letting the command fail silently.

use vstd::prelude::*;

use crate::admin::commands::OUTSIDE_GUILD;
use crate::admin::{MTG_CATEGORY, MTG_ROLE};

verus! {

/// The checks a Magic command goes through, in order.
#[derive(Debug, Clone, Copy, PartialEq, Eq, Structural)]
pub enum Check {
    /// The command was used in a guild, by a member of it.
    Guild,
    /// The guild has the Magic role.
    RoleExists,
    /// The member holds the Magic role.
    RoleHeld,
    /// The channel lies in the Magic category.
    Category,
}

/// Outcome of a check.
#[derive(Debug)]
pub enum Verdict {
    /// Run this check next.
    Next(Check),
    /// Refuse the command, telling the member why.
    Refuse(String),
    /// Run the command.
    Allow,
}

/// The check coming after `c`, none after the last one.
pub open spec fn next_check(c: Check) -> Option<Check> {
    match c {
        Check::Guild => Some(Check::RoleExists),
        Check::RoleExists => Some(Check::RoleHeld),
        Check::RoleHeld => Some(Check::Category),
        Check::Category => None,
    }
}

/// Why a command is refused when the check `c` fails.
pub open spec fn refusal_text(c: Check) -> Seq<char> {
    match c {
        Check::Guild => OUTSIDE_GUILD@,
        Check::RoleExists => "Le rôle `"@ + MTG_ROLE@
            + "` n'existe pas, un administrateur doit lancer `/init mtg`."@,
        Check::RoleHeld => "Il te faut le rôle `"@ + MTG_ROLE@ + "` pour utiliser cette commande."@,
        Check::Category => "Cette commande n'est utilisable que dans la catégorie `"@ + MTG_CATEGORY@
            + "`."@,
    }
}

/// The first check a command goes through.
pub fn first_check() -> (r: Check)
    ensures
        r == Check::Guild,
{
    Check::Guild
}

/// What follows the check `c`, `passed` telling whether it passed: the next
/// check, or the go ahead after the last one, or the refusal at the first that
/// fails.
pub fn verdict(c: Check, passed: bool) -> (r: Verdict)
    ensures
        !passed ==> (r matches Verdict::Refuse(text) && text@ == refusal_text(c)),
        passed ==> match next_check(c) {
            Some(n) => r == Verdict::Next(n),
            None => r == Verdict::Allow,
        },
{
    if !passed {
        let text = match c {
            Check::Guild => String::from_str(OUTSIDE_GUILD),
            Check::RoleExists => {
                let mut t = String::from_str("Le rôle `");
                t.append(MTG_ROLE);
                t.append("` n'existe pas, un administrateur doit lancer `/init mtg`.");
                t
            },
            Check::RoleHeld => {
                let mut t = String::from_str("Il te faut le rôle `");
                t.append(MTG_ROLE);
                t.append("` pour utiliser cette commande.");
                t
            },
            Check::Category => {
                let mut t = String::from_str("Cette commande n'est utilisable que dans la catégorie `");
                t.append(MTG_CATEGORY);
                t.append("`.");
                t
            },
        };
        return Verdict::Refuse(text);
    }
    match c {
        Check::Guild => Verdict::Next(Check::RoleExists),
        Check::RoleExists => Verdict::Next(Check::RoleHeld),
        Check::RoleHeld => Verdict::Next(Check::Category),
        Check::Category => Verdict::Allow,
    }
}

/// The kinds of channel the category check tells apart.
#[derive(Debug, Clone, Copy, PartialEq, Eq, Structural)]
pub enum ChannelKind {
    Category,
    Thread,
    Other,
}

/// A thread hangs under its parent channel, which is the one in the category:
/// the check looks at the parent of a thread.
pub fn looks_at_parent(kind: ChannelKind) -> (r: bool)
    ensures
        r == (kind == ChannelKind::Thread),
{
    kind == ChannelKind::Thread
}

/// The Magic category: a category channel named `MTG_CATEGORY`.
pub fn is_mtg_category(kind: ChannelKind, name: &str) -> (r: bool)
    ensures
        r == (kind == ChannelKind::Category && name@ == MTG_CATEGORY@),
{
    let chars = crate::text::chars_of(name);
    kind == ChannelKind::Category && crate::text::is_word(&chars, MTG_CATEGORY)
}

/// The channel the category check is looking at.
#[derive(Debug, Clone, Copy, PartialEq, Eq, Structural)]
pub enum Place {
    /// The channel the command was used in.
    Used,
    /// The parent channel of the thread the command was used in.
    Parent,
    /// The category holding the channel.
    Category,
}

/// What the category check does next.
#[derive(Debug, Clone, Copy, PartialEq, Eq, Structural)]
pub enum Step {
    /// Fetch the parent of the channel just looked at, which is at `Place`.
    Fetch(Place),
    /// The check is over: whether the command was used in the Magic category.
    Answer(bool),
}

/// A channel the check fetched, when it is a guild channel.
pub struct Seen {
    pub kind: ChannelKind,
    pub has_parent: bool,
    pub name: String,
}

/// The step after looking at `place`, `seen` telling its kind, whether it has
/// a parent and its name (nothing when it is no guild channel): a thread sends
/// the check to its parent, any other channel to its category, and the
/// category gives the answer. A missing channel or parent answers no.
pub open spec fn category_step_spec(place: Place, seen: Option<(ChannelKind, bool, Seq<char>)>) -> Step {
    match seen {
        None => Step::Answer(false),
        Some((kind, has_parent, name)) => match place {
            Place::Category => Step::Answer(kind == ChannelKind::Category && name == MTG_CATEGORY@),
            Place::Used => if !has_parent {
                Step::Answer(false)
            } else if kind == ChannelKind::Thread {
                Step::Fetch(Place::Parent)
            } else {
                Step::Fetch(Place::Category)
            },
            Place::Parent => if !has_parent {
                Step::Answer(false)
            } else {
                Step::Fetch(Place::Category)
            },
        },
    }
}

/// One step of the check that the command was used in the Magic category,
/// threads of its channels included.
pub fn category_step(place: Place, seen: Option<&Seen>) -> (r: Step)
    ensures
        r == category_step_spec(
            place,
            match seen {
                None => None,
                Some(s) => Some((s.kind, s.has_parent, s.name@)),
            },
        ),
{
    match seen {
        None => Step::Answer(false),
        Some(s) => match place {
            Place::Category => Step::Answer(is_mtg_category(s.kind, s.name.as_str())),
            Place::Used => if !s.has_parent {
                Step::Answer(false)
            } else if looks_at_parent(s.kind) {
                Step::Fetch(Place::Parent)
            } else {
                Step::Fetch(Place::Category)
            },
            Place::Parent => if !s.has_parent {
                Step::Answer(false)
            } else {
                Step::Fetch(Place::Category)
            },
        },
    }
}

} // verus!

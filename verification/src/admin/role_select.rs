//! Self service role selection posted in the "Abaye des vocations" channel.

use vstd::prelude::*;

use crate::admin::{ARCHI_ROLE, MTG_ROLE};

verus! {

/// Custom id of the button toggling the Magic role.
pub const MTG_BUTTON_ID: &'static str = "goby:role:mtg";

/// Custom id of the button toggling the Archipelago role.
pub const ARCHI_BUTTON_ID: &'static str = "goby:role:archi";

/// Text of the role selection message.
pub const SELECTION_TEXT: &'static str = "**Abaye des vocations**\nClique sur une vocation pour l'obtenir, clique à nouveau pour l'abandonner.";

/// Role toggled by the button with custom id `custom_id`, nothing for a button
/// that is not one of the role buttons.
pub fn role_for_button(custom_id: &str) -> (r: Option<&'static str>)
    ensures
        custom_id@ == MTG_BUTTON_ID@ ==> (r matches Some(name) && name@ == MTG_ROLE@),
        custom_id@ != MTG_BUTTON_ID@ && custom_id@ == ARCHI_BUTTON_ID@ ==> (r matches Some(name)
            && name@ == ARCHI_ROLE@),
        custom_id@ != MTG_BUTTON_ID@ && custom_id@ != ARCHI_BUTTON_ID@ ==> r is None,
{
    let id = crate::text::chars_of(custom_id);
    if crate::text::is_word(&id, MTG_BUTTON_ID) {
        Some(MTG_ROLE)
    } else if crate::text::is_word(&id, ARCHI_BUTTON_ID) {
        Some(ARCHI_ROLE)
    } else {
        None
    }
}

/// What pressing a role button does.
#[derive(Debug, Clone, Copy, PartialEq, Eq, Structural)]
pub enum Toggle {
    /// The role does not exist in the guild.
    Missing,
    /// The member holds the role, it is taken back.
    Remove,
    /// The member does not hold the role, it is given.
    Add,
}

/// What a press does: nothing when the role is missing, else the role is
/// removed from a member holding it and given to one who does not.
pub open spec fn toggle_spec(role_exists: bool, held: bool) -> Toggle {
    if !role_exists {
        Toggle::Missing
    } else if held {
        Toggle::Remove
    } else {
        Toggle::Add
    }
}

/// Decides what a press does.
pub fn toggle(role_exists: bool, held: bool) -> (r: Toggle)
    ensures
        r == toggle_spec(role_exists, held),
{
    if !role_exists {
        Toggle::Missing
    } else if held {
        Toggle::Remove
    } else {
        Toggle::Add
    }
}

/// Whether a member holds the role after a press, given whether they held it
/// before.
pub open spec fn held_after(t: Toggle, held: bool) -> bool {
    match t {
        Toggle::Missing => held,
        Toggle::Remove => false,
        Toggle::Add => true,
    }
}

/// Pressing the button of an existing role gives it to a member who does not
/// hold it and takes it back from one who does; a second press undoes the
/// first.
pub proof fn lemma_second_press_undoes_first(held: bool)
    ensures
        held_after(toggle_spec(true, held), held) == !held,
        held_after(
            toggle_spec(true, held_after(toggle_spec(true, held), held)),
            held_after(toggle_spec(true, held), held),
        ) == held,
{
}

/// Answer to the member who pressed a role button.
pub fn toggle_answer(role_name: &str, t: Toggle) -> (r: String)
    ensures
        r@ == (match t {
            Toggle::Missing => "Le rôle `"@ + role_name@
                + "` n'existe pas encore, un administrateur doit lancer `/init`."@,
            Toggle::Remove => "Le rôle **"@ + role_name@ + "** t'a été retiré."@,
            Toggle::Add => "Le rôle **"@ + role_name@ + "** t'a été attribué."@,
        }),
{
    match t {
        Toggle::Missing => {
            let mut r = String::from_str("Le rôle `");
            r.append(role_name);
            r.append("` n'existe pas encore, un administrateur doit lancer `/init`.");
            r
        },
        Toggle::Remove => {
            let mut r = String::from_str("Le rôle **");
            r.append(role_name);
            r.append("** t'a été retiré.");
            r
        },
        Toggle::Add => {
            let mut r = String::from_str("Le rôle **");
            r.append(role_name);
            r.append("** t'a été attribué.");
            r
        },
    }
}

/// Position of the first of `names` equal to `name`, how a role or a channel
/// is looked up by name.
pub fn find_named(names: &[String], name: &str) -> (r: Option<usize>)
    ensures
        match r {
            Some(i) => i < names@.len() && names@[i as int]@ == name@ && forall|k: int|
                0 <= k < i ==> (#[trigger] names@[k])@ != name@,
            None => forall|k: int| 0 <= k < names@.len() ==> (#[trigger] names@[k])@ != name@,
        },
{
    let target = crate::text::chars_of(name);
    let mut i: usize = 0;
    while i < names.len()
        invariant
            target@ == name@,
            i <= names@.len(),
            forall|k: int| 0 <= k < i ==> (#[trigger] names@[k])@ != name@,
        decreases names@.len() - i,
    {
        let candidate = crate::text::chars_of(names[i].as_str());
        if crate::text::same_chars(&candidate, &target) {
            return Some(i);
        }
        i += 1;
    }
    None
}

} // verus!

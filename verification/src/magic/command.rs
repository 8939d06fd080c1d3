//! Answers to the `!` commands of the Magic channels.

use vstd::prelude::*;

use crate::text::{chars_of, is_word, split_words, words};

verus! {

/// Answer to a message of a Magic channel whose first word is a command,
/// `mentions` holding the display names of the members it mentions: `!help`
/// lists the commands, `!win` followed by a single mention records a win for
/// that member, `!leaderboard` shows the leaderboard.
pub open spec fn reply_spec(ws: Seq<Seq<char>>, mentions: Seq<Seq<char>>) -> Seq<char> {
    if ws[0] == "!help"@ {
        "Commande disponible dans ce salon: !help"@
    } else if ws[0] == "!win"@ {
        if mentions.len() == 1 && ws.len() == 2 {
            "Ajout d'une victoire pour "@ + mentions[0]
        } else {
            "Usage: !win [@user]"@
        }
    } else if ws[0] == "!leaderboard"@ {
        "Affichage du leaderboard"@
    } else {
        "Commande inconnu ou indisponible dans ce salon"@
    }
}

/// Answers a message of a Magic channel holding at least one word.
pub fn handle_command(content: &str, mentions: &[String]) -> (r: String)
    requires
        words(content@).len() >= 1,
    ensures
        r@ == reply_spec(words(content@), mentions@.map_values(|m: String| m@)),
{
    let chars = chars_of(content);
    let args = split_words(&chars);
    assert(args.deep_view()[0] == args@[0]@);
    let command = &args[0];
    if is_word(command, "!help") {
        String::from_str("Commande disponible dans ce salon: !help")
    } else if is_word(command, "!win") {
        if mentions.len() == 1 && args.len() == 2 {
            win(mentions[0].as_str())
        } else {
            String::from_str("Usage: !win [@user]")
        }
    } else if is_word(command, "!leaderboard") {
        String::from_str("Affichage du leaderboard")
    } else {
        String::from_str("Commande inconnu ou indisponible dans ce salon")
    }
}

/// Answer recording a win for the member named `user_name`.
pub fn win(user_name: &str) -> (r: String)
    ensures
        r@ == "Ajout d'une victoire pour "@ + user_name@,
{
    let mut r = String::from_str("Ajout d'une victoire pour ");
    r.append(user_name);
    r
}

/// `!help` is answered with the help, `!leaderboard` with the leaderboard,
/// `!win` followed by exactly one mention records a win for the member
/// mentioned; a message whose first word is one of the commands never gets
/// the unknown command answer.
pub proof fn lemma_magic_answers(ws: Seq<Seq<char>>, mentions: Seq<Seq<char>>)
    requires
        ws.len() >= 1,
    ensures
        ws[0] == "!help"@ ==> reply_spec(ws, mentions) == "Commande disponible dans ce salon: !help"@,
        ws[0] == "!leaderboard"@ ==> reply_spec(ws, mentions) == "Affichage du leaderboard"@,
        ws[0] == "!win"@ && ws.len() == 2 && mentions.len() == 1 ==> reply_spec(ws, mentions)
            == "Ajout d'une victoire pour "@ + mentions[0],
        reply_spec(ws, mentions) == "Commande inconnu ou indisponible dans ce salon"@ ==> ws[0]
            != "!help"@ && ws[0] != "!win"@ && ws[0] != "!leaderboard"@,
{
    reveal_strlit("!help");
    reveal_strlit("!win");
    reveal_strlit("!leaderboard");
    reveal_strlit("Commande disponible dans ce salon: !help");
    reveal_strlit("Affichage du leaderboard");
    reveal_strlit("Usage: !win [@user]");
    reveal_strlit("Ajout d'une victoire pour ");
    reveal_strlit("Commande inconnu ou indisponible dans ce salon");
    let u = "Commande inconnu ou indisponible dans ce salon"@;
    assert("!help"@.len() != "!win"@.len());
    assert("!help"@.len() != "!leaderboard"@.len());
    assert("!win"@.len() != "!leaderboard"@.len());
    assert(u.len() != "Commande disponible dans ce salon: !help"@.len());
    assert(u.len() != "Affichage du leaderboard"@.len());
    assert(u.len() != "Usage: !win [@user]"@.len());
    if ws[0] == "!win"@ && mentions.len() == 1 && ws.len() == 2 {
        let v = "Ajout d'une victoire pour "@ + mentions[0];
        assert(v[0] == 'A');
        assert(u[0] == 'C');
    }
}

} // verus!

//! Commands of the Archipelago channels read from plain messages.

pub mod command;
pub mod game_management;

use vstd::prelude::*;

use crate::text::{chars_of, is_word, split_words, string_of, words};

verus! {

/// Answer to a command of an Archipelago channel that does not exist.
pub const UNKNOWN_COMMAND: &'static str = "Commande inconnu ou indisponible dans ce salon. Tapez !help pour voir les commandes disponibles";

/// A command of the Archipelago channels.
#[derive(Debug)]
pub enum Command {
    /// `!help`: lists the commands.
    Help,
    /// `!listGames`: links to the compatible games.
    ListGames,
    /// `!addGame <game_url>`: adds a game to the list of the author.
    AddGame(String),
    /// `!myGames`: shows the games of the author.
    MyGames,
    /// `!register`: registers the author as a player.
    Register,
    /// Any other first word.
    Unknown,
}

/// The command a message whose words are `ws` holds: its first word names it,
/// `!addGame` takes the second word as the game URL.
pub open spec fn command_matches(ws: Seq<Seq<char>>, c: Command) -> bool {
    if ws[0] == "!help"@ {
        c is Help
    } else if ws[0] == "!listGames"@ {
        c is ListGames
    } else if ws[0] == "!addGame"@ {
        c matches Command::AddGame(url) && url@ == ws[1]
    } else if ws[0] == "!myGames"@ {
        c is MyGames
    } else if ws[0] == "!register"@ {
        c is Register
    } else {
        c is Unknown
    }
}

/// Reads the command of a message holding at least one word, and a second one
/// after `!addGame`.
pub fn parse_command(content: &str) -> (r: Command)
    requires
        words(content@).len() >= 1,
        words(content@)[0] == "!addGame"@ ==> words(content@).len() >= 2,
    ensures
        command_matches(words(content@), r),
{
    let chars = chars_of(content);
    let args = split_words(&chars);
    assert(args.deep_view()[0] == args@[0]@);
    let first = &args[0];
    if is_word(first, "!help") {
        Command::Help
    } else if is_word(first, "!listGames") {
        Command::ListGames
    } else if is_word(first, "!addGame") {
        assert(args.deep_view()[1] == args@[1]@);
        Command::AddGame(string_of(&args[1]))
    } else if is_word(first, "!myGames") {
        Command::MyGames
    } else if is_word(first, "!register") {
        Command::Register
    } else {
        Command::Unknown
    }
}

/// Help of the Archipelago channels.
pub fn help() -> (r: String)
    ensures
        r@ == "Voici les commandes disponibles :\r\n!help : Affiche ce message d'aide\r\n!register : Vous enregistre en tant que joueur archipelago !!! A UTILISER AVANT LES AUTRES COMMANDES !!!\r\n!listGames : Donne un lien avec les jeux compatible archipelago\r\n!addGame <game_url> : Ajoute un jeu à votre liste de jeu compatible\r\n!myGames : Affiche votre liste des jeux archipelago enregistré avec !addGame"@,
{
    String::from_str(
        "Voici les commandes disponibles :\r\n!help : Affiche ce message d'aide\r\n!register : Vous enregistre en tant que joueur archipelago !!! A UTILISER AVANT LES AUTRES COMMANDES !!!\r\n!listGames : Donne un lien avec les jeux compatible archipelago\r\n!addGame <game_url> : Ajoute un jeu à votre liste de jeu compatible\r\n!myGames : Affiche votre liste des jeux archipelago enregistré avec !addGame",
    )
}

/// Each command word of the Archipelago channels is read as its own command,
/// and a message is read as unknown only when its first word is none of them.
pub proof fn lemma_command_words(ws: Seq<Seq<char>>, c: Command)
    requires
        ws.len() >= 1,
        command_matches(ws, c),
    ensures
        ws[0] == "!help"@ ==> c is Help,
        ws[0] == "!listGames"@ ==> c is ListGames,
        ws[0] == "!addGame"@ ==> (c matches Command::AddGame(url) && url@ == ws[1]),
        ws[0] == "!myGames"@ ==> c is MyGames,
        ws[0] == "!register"@ ==> c is Register,
        c is Unknown ==> ws[0] != "!help"@ && ws[0] != "!listGames"@ && ws[0] != "!addGame"@
            && ws[0] != "!myGames"@ && ws[0] != "!register"@,
{
    reveal_strlit("!help");
    reveal_strlit("!listGames");
    reveal_strlit("!addGame");
    reveal_strlit("!myGames");
    reveal_strlit("!register");
    assert("!help"@.len() != "!listGames"@.len());
    assert("!help"@ != "!listGames"@);
    assert("!help"@.len() != "!addGame"@.len());
    assert("!help"@ != "!addGame"@);
    assert("!help"@.len() != "!myGames"@.len());
    assert("!help"@ != "!myGames"@);
    assert("!help"@.len() != "!register"@.len());
    assert("!help"@ != "!register"@);
    assert("!listGames"@.len() != "!addGame"@.len());
    assert("!listGames"@ != "!addGame"@);
    assert("!listGames"@.len() != "!myGames"@.len());
    assert("!listGames"@ != "!myGames"@);
    assert("!listGames"@.len() != "!register"@.len());
    assert("!listGames"@ != "!register"@);
    assert("!addGame"@[1] != "!myGames"@[1]);
    assert("!addGame"@ != "!myGames"@);
    assert("!addGame"@.len() != "!register"@.len());
    assert("!addGame"@ != "!register"@);
    assert("!myGames"@.len() != "!register"@.len());
    assert("!myGames"@ != "!register"@);
}

} // verus!

//! Another reading of the `!` commands of the Archipelago channels, where a
//! game is checked against the names of a game catalogue.

use vstd::prelude::*;

use crate::archipelago::game_management::{starts_with, GAMES_LINK, INVALID_URL, WIKI_PREFIX};
use crate::archipelago::UNKNOWN_COMMAND;
use crate::json::{json_array, json_as_array, json_from_str, json_get, json_index, json_text, json_to_text, parse_json};
use serde_json::Value;
use crate::text::{chars_of, is_word, replace_all, replace_chars, same_chars, split_words, string_of, words};

verus! {

/// Usage of `!add_game`.
pub const ADD_GAME_USAGE: &'static str = "Usage: !add_game [game_url], tapez !list_games pour voir les jeux compatibles \r\n
        Exemple: !add_game https://archipelago.miraheze.org/wiki/Final_Fantasy";

/// The game a wiki address names: the address without the wiki prefix, its
/// underscores turned into spaces.
pub open spec fn game_of_url(url: Seq<char>) -> Seq<char> {
    replace_all(replace_all(url, WIKI_PREFIX@, Seq::<char>::empty()), "_"@, " "@)
}

/// What a message of an Archipelago channel calls for.
#[derive(Debug)]
pub enum Reply {
    /// This answer.
    Answer(String),
    /// Checking the game of an `!add_game` against the catalogue.
    CheckGame(String),
}

/// The reply a message whose words are `ws` calls for, `!add_game` giving
/// its usage unless there is exactly one argument, and refusing an address
/// that is not a wiki page before the game is looked up.
pub open spec fn reply_matches(ws: Seq<Seq<char>>, r: Reply) -> bool {
    if ws[0] == "!help"@ {
        r matches Reply::Answer(a) && a@ == "Commande disponible dans ce salon: !help"@
    } else if ws[0] == "!list_games"@ {
        r matches Reply::Answer(a) && a@ == GAMES_LINK@
    } else if ws[0] == "!add_game"@ {
        if ws.len() != 2 {
            r matches Reply::Answer(a) && a@ == ADD_GAME_USAGE@
        } else if !starts_with(ws[1], WIKI_PREFIX@) {
            r matches Reply::Answer(a) && a@ == INVALID_URL@
        } else {
            r matches Reply::CheckGame(game) && game@ == game_of_url(ws[1])
        }
    } else {
        r matches Reply::Answer(a) && a@ == UNKNOWN_COMMAND@
    }
}

fn check_url(args: &Vec<Vec<char>>) -> (r: Reply)
    requires
        args@.len() == 2,
    ensures
        !starts_with(args.deep_view()[1], WIKI_PREFIX@) ==> (r matches Reply::Answer(a) && a@
            == INVALID_URL@),
        starts_with(args.deep_view()[1], WIKI_PREFIX@) ==> (r matches Reply::CheckGame(game)
            && game@ == game_of_url(args.deep_view()[1])),
{
    assert(args.deep_view()[1] == args@[1]@);
    let url = &args[1];
    let prefix = chars_of(WIKI_PREFIX);
    if url.len() < prefix.len() {
        return Reply::Answer(String::from_str(INVALID_URL));
    }
    let mut i: usize = 0;
    while i < prefix.len()
        invariant
            prefix@ == WIKI_PREFIX@,
            url@ == args.deep_view()[1],
            args@.len() == 2,
            prefix@.len() <= url@.len(),
            i <= prefix@.len(),
            forall|k: int| 0 <= k < i ==> url@[k] == prefix@[k],
        decreases prefix@.len() - i,
    {
        if url[i] != prefix[i] {
            assert(url@.take(prefix@.len() as int)[i as int] != prefix@[i as int]);
            return Reply::Answer(String::from_str(INVALID_URL));
        }
        i += 1;
    }
    assert(url@.take(prefix@.len() as int) =~= prefix@);
    proof {
        reveal_strlit("https://archipelago.miraheze.org/wiki/");
        reveal_strlit("_");
    }
    let empty: Vec<char> = Vec::new();
    let page = replace_chars(url, &prefix, &empty);
    assert(empty@ =~= Seq::<char>::empty());
    let underscore = chars_of("_");
    let space = chars_of(" ");
    let game = replace_chars(&page, &underscore, &space);
    Reply::CheckGame(string_of(&game))
}

/// Answer to an `!add_game` whose game is `game`, `names` holding the names of
/// the catalogue games as JSON writes them, in quotes: the news that `author`
/// added the game when its quoted name is one of them.
pub open spec fn add_game_answer(game: Seq<char>, author: Seq<char>, names: Seq<Seq<char>>) -> Seq<char> {
    if names.contains("\""@ + game + "\""@) {
        author + " a ajouté "@ + game + " a sa liste de jeux possible"@
    } else {
        "Ce jeu n'est pas compatible avec Archipelago"@
    }
}

/// What the catalogue `json` lists: the JSON text of the `name` member of each
/// element of its `games` array, or nothing when `json` is not JSON or its
/// `games` member is no array.
pub open spec fn catalogue_names_spec(json: Seq<char>) -> Option<Seq<Seq<char>>> {
    match json_from_str(json) {
        None => None,
        Some(v) => match json_array(json_index(v, "games"@)) {
            None => None,
            Some(games) => Some(games.map_values(|g: Value| json_text(json_index(g, "name"@)))),
        },
    }
}

/// The names of the games of a catalogue, as JSON writes them.
fn catalogue_names(json: &str) -> (r: Option<Vec<String>>)
    ensures
        match r {
            Some(v) => catalogue_names_spec(json@) == Some(v.deep_view()),
            None => catalogue_names_spec(json@) is None,
        },
{
    let value = match parse_json(json) {
        Some(value) => value,
        None => {
            return None;
        },
    };
    let games = match json_as_array(json_get(&value, "games")) {
        Some(games) => games,
        None => {
            return None;
        },
    };
    let ghost names = games@.map_values(|g: Value| json_text(json_index(g, "name"@)));
    let mut r: Vec<String> = Vec::new();
    let mut i: usize = 0;
    while i < games.len()
        invariant
            i <= games@.len(),
            names == games@.map_values(|g: Value| json_text(json_index(g, "name"@))),
            r.deep_view() == names.take(i as int),
        decreases games@.len() - i,
    {
        let ghost before = r.deep_view();
        let text = json_to_text(json_get(&games[i], "name"));
        r.push(text);
        assert(r.deep_view() =~= before.push(names[i as int]));
        assert(names.take(i + 1) =~= names.take(i as int).push(names[i as int]));
        i += 1;
    }
    assert(names.take(games@.len() as int) =~= names);
    Some(r)
}

/// Answer to an `!add_game` whose game is `game`, checked against the
/// catalogue text `catalogue_json`. `None` when the catalogue cannot be read as
/// one.
pub fn add_game(game: &str, author: &str, catalogue_json: &str) -> (r: Option<String>)
    ensures
        match catalogue_names_spec(catalogue_json@) {
            None => r is None,
            Some(names) => r matches Some(a) && a@ == add_game_answer(game@, author@, names),
        },
{
    match catalogue_names(catalogue_json) {
        None => None,
        Some(names) => {
            assert(names.deep_view() =~= names@.map_values(|c: String| c@));
            Some(add_game_among(game, author, &names))
        },
    }
}

/// Answer to an `!add_game` whose game is `game`, `catalogue` holding the names
/// of the catalogue games as JSON writes them.
pub fn add_game_among(game: &str, author: &str, catalogue: &[String]) -> (r: String)
    ensures
        r@ == add_game_answer(game@, author@, catalogue@.map_values(|c: String| c@)),
{
    let mut quoted = String::from_str("\"");
    quoted.append(game);
    quoted.append("\"");
    let target = chars_of(quoted.as_str());
    let ghost names = catalogue@.map_values(|c: String| c@);
    let mut k: usize = 0;
    let mut found = false;
    while k < catalogue.len() && !found
        invariant
            k <= catalogue@.len(),
            names == catalogue@.map_values(|c: String| c@),
            found ==> names.contains(target@),
            !found ==> forall|j: int| 0 <= j < k ==> names[j] != target@,
        decreases catalogue@.len() - k + (if found { 0int } else { 1int }),
    {
        let candidate = chars_of(catalogue[k].as_str());
        if same_chars(&candidate, &target) {
            assert(names[k as int] == target@);
            found = true;
        } else {
            k += 1;
        }
    }
    if !found {
        assert(!names.contains(target@)) by {
            if names.contains(target@) {
                let j = choose|j: int| 0 <= j < names.len() && names[j] == target@;
            }
        }
        return String::from_str("Ce jeu n'est pas compatible avec Archipelago");
    }
    let mut r = string_of(&chars_of(author));
    r.append(" a ajouté ");
    r.append(game);
    r.append(" a sa liste de jeux possible");
    r
}

/// Reads a message of an Archipelago channel holding at least one word.
pub fn handle_command(content: &str) -> (r: Reply)
    requires
        words(content@).len() >= 1,
    ensures
        reply_matches(words(content@), r),
{
    let chars = chars_of(content);
    let args = split_words(&chars);
    assert(args.deep_view()[0] == args@[0]@);
    if is_word(&args[0], "!help") {
        Reply::Answer(help())
    } else if is_word(&args[0], "!list_games") {
        Reply::Answer(String::from_str(GAMES_LINK))
    } else if is_word(&args[0], "!add_game") {
        if args.len() != 2 {
            Reply::Answer(String::from_str(ADD_GAME_USAGE))
        } else {
            check_url(&args)
        }
    } else {
        Reply::Answer(String::from_str(UNKNOWN_COMMAND))
    }
}

/// Help of this reading of the commands.
pub fn help() -> (r: String)
    ensures
        r@ == "Commande disponible dans ce salon: !help"@,
{
    String::from_str("Commande disponible dans ce salon: !help")
}

/// `!help` is answered with the help, `!list_games` with the link to the list
/// of compatible games; a message whose first word is `!help`, `!list_games`
/// or `!add_game` never gets the unknown command answer.
pub proof fn lemma_command_answers(ws: Seq<Seq<char>>, r: Reply)
    requires
        ws.len() >= 1,
        reply_matches(ws, r),
    ensures
        ws[0] == "!help"@ ==> (r matches Reply::Answer(a) && a@
            == "Commande disponible dans ce salon: !help"@),
        ws[0] == "!list_games"@ ==> (r matches Reply::Answer(a) && a@
            == "La listes des jeux compatibles sont visibles ici : https://archipelago.miraheze.org/wiki/Category:Games"@),
        (r matches Reply::Answer(a) && a@
            == "Commande inconnu ou indisponible dans ce salon. Tapez !help pour voir les commandes disponibles"@)
            ==> ws[0] != "!help"@ && ws[0] != "!list_games"@ && ws[0] != "!add_game"@,
{
    reveal_strlit("!help");
    reveal_strlit("!list_games");
    reveal_strlit("!add_game");
    reveal_strlit("Commande disponible dans ce salon: !help");
    assert(GAMES_LINK@ == "La listes des jeux compatibles sont visibles ici : https://archipelago.miraheze.org/wiki/Category:Games"@);
    assert(UNKNOWN_COMMAND@ == "Commande inconnu ou indisponible dans ce salon. Tapez !help pour voir les commandes disponibles"@);
    assert(INVALID_URL@ == "Url invalide : https://archipelago.miraheze.org/wiki/[nom_du_jeu]"@);
    reveal_strlit(
        "La listes des jeux compatibles sont visibles ici : https://archipelago.miraheze.org/wiki/Category:Games",
    );
    reveal_strlit(
        "Commande inconnu ou indisponible dans ce salon. Tapez !help pour voir les commandes disponibles",
    );
    reveal_strlit("Url invalide : https://archipelago.miraheze.org/wiki/[nom_du_jeu]");
    reveal_strlit(
        "Usage: !add_game [game_url], tapez !list_games pour voir les jeux compatibles \r\n
        Exemple: !add_game https://archipelago.miraheze.org/wiki/Final_Fantasy",
    );
    assert("!help"@.len() != "!list_games"@.len());
    assert("!help"@ != "!list_games"@);
    assert("!add_game"@.len() != "!list_games"@.len());
    assert("!add_game"@ != "!list_games"@);
    assert("!add_game"@.len() != "!help"@.len());
    assert("!add_game"@ != "!help"@);
    let u = "Commande inconnu ou indisponible dans ce salon. Tapez !help pour voir les commandes disponibles"@;
    assert(u.len() != GAMES_LINK@.len());
    assert(u != GAMES_LINK@);
    assert(u.len() != INVALID_URL@.len());
    assert(u != INVALID_URL@);
    assert(u.len() != ADD_GAME_USAGE@.len());
    assert(u != ADD_GAME_USAGE@);
    assert(u.len() != "Commande disponible dans ce salon: !help"@.len());
    assert(u != "Commande disponible dans ce salon: !help"@);
}

} // verus!

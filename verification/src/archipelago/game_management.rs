//! Games of the Archipelago players.

use vstd::prelude::*;

use crate::mtg::card_list::{lines_of, split_lines};
use crate::text::{chars_of, replace_all, replace_chars, same_chars, string_of};

verus! {

/// Address of the wiki page of a game, before its name.
pub const WIKI_PREFIX: &'static str = "https://archipelago.miraheze.org/wiki/";

/// Answer listing where the compatible games are.
pub const GAMES_LINK: &'static str = "La listes des jeux compatibles sont visibles ici : https://archipelago.miraheze.org/wiki/Category:Games";

/// Answer to a game address that is not a page of the wiki.
pub const INVALID_URL: &'static str = "Url invalide : https://archipelago.miraheze.org/wiki/[nom_du_jeu]";

/// A player and the games they registered, by wiki page name.
#[derive(Debug)]
pub struct Player {
    pub name: String,
    pub games: Vec<String>,
}

/// Names of the pages `games`.
pub open spec fn game_names(games: Seq<String>) -> Seq<Seq<char>> {
    games.map_values(|g: String| g@)
}

impl Player {
    /// A player with no game yet.
    pub fn new(name: &str) -> (r: Player)
        ensures
            r.name@ == name@,
            r.games@.len() == 0,
    {
        Player { name: string_of(&chars_of(name)), games: Vec::new() }
    }

    /// Adds a game to the list of the player, unless it is there already;
    /// tells whether it was added.
    pub fn add_game(&mut self, game: &str) -> (added: bool)
        ensures
            added == !game_names(old(self).games@).contains(game@),
            added ==> game_names(final(self).games@) == game_names(old(self).games@).push(game@),
            !added ==> final(self).games@ == old(self).games@,
            final(self).name == old(self).name,
    {
        let target = chars_of(game);
        let mut i: usize = 0;
        while i < self.games.len()
            invariant
                target@ == game@,
                i <= self.games@.len(),
                forall|k: int| 0 <= k < i ==> (#[trigger] self.games@[k])@ != game@,
            decreases self.games@.len() - i,
        {
            let name = chars_of(self.games[i].as_str());
            if same_chars(&name, &target) {
                assert(game_names(self.games@)[i as int] == game@);
                return false;
            }
            i += 1;
        }
        assert(!game_names(self.games@).contains(game@)) by {
            if game_names(self.games@).contains(game@) {
                let k = choose|k: int| 0 <= k < self.games@.len() && game_names(self.games@)[k] == game@;
                assert(self.games@[k]@ == game@);
            }
        }
        let ghost before = self.games@;
        self.games.push(string_of(&target));
        assert(game_names(self.games@) =~= game_names(before).push(game@));
        true
    }
}

/// True when `url` starts with `prefix`.
pub open spec fn starts_with(url: Seq<char>, prefix: Seq<char>) -> bool {
    url.len() >= prefix.len() && url.take(prefix.len() as int) == prefix
}

/// The page name of a game address: the address without the wiki prefix,
/// nothing when it is not a page of the wiki.
pub fn game_from_url(url: &str) -> (r: Option<String>)
    ensures
        starts_with(url@, WIKI_PREFIX@) ==> (r matches Some(name) && name@ == replace_all(
            url@,
            WIKI_PREFIX@,
            Seq::<char>::empty(),
        )),
        !starts_with(url@, WIKI_PREFIX@) ==> r is None,
{
    let chars = chars_of(url);
    let prefix = chars_of(WIKI_PREFIX);
    proof {
        reveal_strlit("https://archipelago.miraheze.org/wiki/");
    }
    if chars.len() < prefix.len() {
        return None;
    }
    let mut i: usize = 0;
    while i < prefix.len()
        invariant
            prefix@ == WIKI_PREFIX@,
            chars@ == url@,
            prefix@.len() <= chars@.len(),
            i <= prefix@.len(),
            forall|k: int| 0 <= k < i ==> chars@[k] == prefix@[k],
        decreases prefix@.len() - i,
    {
        if chars[i] != prefix[i] {
            assert(chars@.take(prefix@.len() as int)[i as int] != prefix@[i as int]);
            return None;
        }
        i += 1;
    }
    assert(chars@.take(prefix@.len() as int) =~= prefix@);
    let empty: Vec<char> = Vec::new();
    let name = replace_chars(&chars, &prefix, &empty);
    assert(empty@ =~= Seq::<char>::empty());
    Some(string_of(&name))
}

/// The compatible games of the games file, one page name per line, as
/// `str::lines` splits it.
pub fn game_list(text: &str) -> (r: Vec<String>)
    ensures
        r.deep_view() == lines_of(text@),
{
    let chars = chars_of(text);
    let lines = split_lines(&chars);
    let mut r: Vec<String> = Vec::new();
    let mut i: usize = 0;
    while i < lines.len()
        invariant
            i <= lines@.len(),
            lines.deep_view() == lines_of(text@),
            r.deep_view() == lines.deep_view().take(i as int),
        decreases lines@.len() - i,
    {
        let ghost before = r.deep_view();
        assert(lines@[i as int].deep_view() =~= lines@[i as int]@);
        assert(lines.deep_view()[i as int] == lines@[i as int].deep_view());
        r.push(string_of(&lines[i]));
        assert(r.deep_view() =~= before.push(lines@[i as int]@));
        assert(lines.deep_view().take(i + 1) =~= lines.deep_view().take(i as int).push(
            lines.deep_view()[i as int],
        ));
        i += 1;
    }
    assert(lines.deep_view().take(lines@.len() as int) =~= lines.deep_view());
    r
}

/// A page name as players read it: underscores become spaces.
pub open spec fn display_name(game: Seq<char>) -> Seq<char> {
    replace_all(game, "_"@, " "@)
}

fn display(game: &str) -> (r: Vec<char>)
    ensures
        r@ == display_name(game@),
{
    let chars = chars_of(game);
    let underscore = chars_of("_");
    let space = chars_of(" ");
    proof {
        reveal_strlit("_");
    }
    replace_chars(&chars, &underscore, &space)
}

/// True when `game` is one of the compatible games `compatible`.
pub fn is_compatible(compatible: &[String], game: &str) -> (r: bool)
    ensures
        r == game_names(compatible@).contains(game@),
{
    let target = chars_of(game);
    let mut i: usize = 0;
    while i < compatible.len()
        invariant
            target@ == game@,
            i <= compatible@.len(),
            forall|k: int| 0 <= k < i ==> (#[trigger] compatible@[k])@ != game@,
        decreases compatible@.len() - i,
    {
        let name = chars_of(compatible[i].as_str());
        if same_chars(&name, &target) {
            assert(game_names(compatible@)[i as int] == game@);
            return true;
        }
        i += 1;
    }
    assert(!game_names(compatible@).contains(game@)) by {
        if game_names(compatible@).contains(game@) {
            let k = choose|k: int| 0 <= k < compatible@.len() && game_names(compatible@)[k] == game@;
            assert(compatible@[k]@ == game@);
        }
    }
    false
}

/// Answer to a game that is not in the list of compatible games.
pub const NOT_COMPATIBLE: &'static str = "Jeu non trouvé dans la liste des jeux compatibles";

/// Adds a compatible game to the list of a player: the answer, and whether
/// the list changed and has to be saved.
pub fn add_to_player(player: &mut Player, game: &str, player_name: &str) -> (r: (String, bool))
    ensures
        r.1 == !game_names(old(player).games@).contains(game@),
        r.1 ==> game_names(final(player).games@) == game_names(old(player).games@).push(game@),
        !r.1 ==> final(player).games@ == old(player).games@,
        final(player).name == old(player).name,
        r.0@ == display_name(game@) + (if r.1 {
            " ajouté à la liste de "@
        } else {
            " est déjà dans la liste de "@
        }) + player_name@ + " !"@,
{
    let added = player.add_game(game);
    let shown = display(game);
    let mut answer = string_of(&shown);
    if added {
        answer.append(" ajouté à la liste de ");
    } else {
        answer.append(" est déjà dans la liste de ");
    }
    answer.append(player_name);
    answer.append(" !");
    (answer, added)
}

/// Answer to `!addGame`, `game` being the page name its address gave (none
/// when the address is no page of the wiki) and `games` the compatible games:
/// an invalid address is refused first, then a game that is not compatible;
/// a compatible game is added to `player`. Also tells whether the player
/// changed and has to be saved.
pub fn add_game_to(game: Option<String>, games: &[String], player: &mut Player, player_name: &str) -> (r: (
    String,
    bool,
))
    ensures
        game is None ==> r.0@ == INVALID_URL@ && !r.1 && *final(player) == *old(player),
        game is Some && !game_names(games@).contains(game.unwrap()@) ==> r.0@ == NOT_COMPATIBLE@
            && !r.1 && *final(player) == *old(player),
        game is Some && game_names(games@).contains(game.unwrap()@) ==> {
            &&& r.1 == !game_names(old(player).games@).contains(game.unwrap()@)
            &&& r.1 ==> game_names(final(player).games@) == game_names(old(player).games@).push(
                game.unwrap()@,
            )
            &&& !r.1 ==> final(player).games@ == old(player).games@
            &&& final(player).name == old(player).name
            &&& r.0@ == display_name(game.unwrap()@) + (if r.1 {
                " ajouté à la liste de "@
            } else {
                " est déjà dans la liste de "@
            }) + player_name@ + " !"@
        },
{
    match game {
        None => (String::from_str(INVALID_URL), false),
        Some(g) => {
            if !is_compatible(games, g.as_str()) {
                (String::from_str(NOT_COMPATIBLE), false)
            } else {
                add_to_player(player, g.as_str(), player_name)
            }
        },
    }
}

/// List of the games of a player, or the hint to add some when there is none.
pub open spec fn my_games_spec(player_name: Seq<char>, games: Seq<Seq<char>>) -> Seq<char> {
    if games.len() == 0 {
        player_name + " n'a aucun jeu archipelago d'inscrit. Utilisez !add_game pour ajouter un jeu."@
    } else {
        "Liste de jeu de "@ + player_name + " :\r\n"@ + crate::text::join_with(
            games.map_values(|g: Seq<char>| display_name(g)),
            "\r\n "@,
        )
    }
}

/// Answer to `!myGames`.
pub fn my_games(player_name: &str, games: &[String]) -> (r: String)
    ensures
        r@ == my_games_spec(player_name@, game_names(games@)),
{
    if games.len() == 0 {
        let mut r = string_of(&chars_of(player_name));
        r.append(" n'a aucun jeu archipelago d'inscrit. Utilisez !add_game pour ajouter un jeu.");
        return r;
    }
    let ghost shown = game_names(games@).map_values(|g: Seq<char>| display_name(g));
    let mut list = String::new();
    let mut i: usize = 0;
    assert(list@ =~= crate::text::join_with(shown.take(0), "\r\n "@));
    while i < games.len()
        invariant
            i <= games@.len(),
            shown == game_names(games@).map_values(|g: Seq<char>| display_name(g)),
            list@ == crate::text::join_with(shown.take(i as int), "\r\n "@),
        decreases games@.len() - i,
    {
        let ghost before = list@;
        assert(shown.take(i + 1).drop_last() == shown.take(i as int));
        assert(shown.take(i + 1).last() == display_name(games@[i as int]@));
        if i > 0 {
            list.append("\r\n ");
        } else {
            assert(shown.take(1) =~= seq![shown[0]]);
            assert(before =~= Seq::<char>::empty());
        }
        let name = display(games[i].as_str());
        let name = string_of(&name);
        list.append(name.as_str());
        if i == 0 {
            assert(list@ =~= shown[0]);
        }
        i += 1;
    }
    assert(shown.take(games@.len() as int) == shown);
    let mut r = String::from_str("Liste de jeu de ");
    r.append(player_name);
    r.append(" :\r\n");
    r.append(list.as_str());
    r
}

/// Answer to `!register`, `already` telling that the player was registered.
pub fn register_answer(player_name: &str, already: bool) -> (r: String)
    ensures
        r@ == player_name@ + (if already {
            " est déjà inscrit !"@
        } else {
            " a rejoins la course !"@
        }),
{
    let mut r = string_of(&chars_of(player_name));
    if already {
        r.append(" est déjà inscrit !");
    } else {
        r.append(" a rejoins la course !");
    }
    r
}

/// Answer to `!listGames`.
pub fn list_games() -> (r: String)
    ensures
        r@ == GAMES_LINK@,
{
    String::from_str(GAMES_LINK)
}

} // verus!

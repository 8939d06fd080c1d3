use goby_bot::archipelago::command::{add_game, add_game_among, handle_command, Reply};
use goby_bot::archipelago::game_management::{
    add_game_to, add_to_player, game_from_url, game_list, is_compatible, list_games, my_games, register_answer, Player,
};
use goby_bot::archipelago::{help, parse_command, Command};
use goby_bot::magic::command::{handle_command as magic_reply, win};

#[test]
fn reads_the_archipelago_commands() {
    assert!(matches!(parse_command("!help"), Command::Help));
    assert!(matches!(parse_command("  !listGames extra"), Command::ListGames));
    match parse_command("!addGame https://archipelago.miraheze.org/wiki/Celeste") {
        Command::AddGame(url) => assert_eq!(url, "https://archipelago.miraheze.org/wiki/Celeste"),
        other => panic!("unexpected {other:?}"),
    }
    assert!(matches!(parse_command("!myGames"), Command::MyGames));
    assert!(matches!(parse_command("!register"), Command::Register));
    assert!(matches!(parse_command("!nope"), Command::Unknown));
    assert!(help().starts_with("Voici les commandes disponibles :\r\n!help : Affiche"));
}

#[test]
fn manages_the_games_of_a_player() {
    assert_eq!(game_from_url("https://example.org/wiki/Celeste"), None);
    let game = game_from_url("https://archipelago.miraheze.org/wiki/Final_Fantasy").unwrap();
    assert_eq!(game, "Final_Fantasy");
    let compatible = vec!["Celeste".to_owned(), "Final_Fantasy".to_owned()];
    assert!(is_compatible(&compatible, &game));
    assert!(!is_compatible(&compatible, "Zelda"));
    let mut player = Player::new("Bob");
    assert_eq!(
        add_to_player(&mut player, &game, "Bob"),
        ("Final Fantasy ajouté à la liste de Bob !".to_owned(), true)
    );
    assert_eq!(
        add_to_player(&mut player, &game, "Bob"),
        ("Final Fantasy est déjà dans la liste de Bob !".to_owned(), false)
    );
    assert_eq!(player.games, ["Final_Fantasy"]);
    assert_eq!(
        my_games("Bob", &["Final_Fantasy".to_owned(), "Celeste".to_owned()]),
        "Liste de jeu de Bob :\r\nFinal Fantasy\r\n Celeste"
    );
    assert_eq!(
        my_games("Bob", &[]),
        "Bob n'a aucun jeu archipelago d'inscrit. Utilisez !add_game pour ajouter un jeu."
    );
    assert_eq!(register_answer("Bob", false), "Bob a rejoins la course !");
    assert_eq!(register_answer("Bob", true), "Bob est déjà inscrit !");
    assert!(list_games().ends_with("Category:Games"));
}

fn answer(reply: Reply) -> String {
    match reply {
        Reply::Answer(text) => text,
        other => panic!("unexpected {other:?}"),
    }
}

#[test]
fn checks_a_game_against_the_catalogue() {
    match handle_command("!add_game https://archipelago.miraheze.org/wiki/Final_Fantasy") {
        Reply::CheckGame(game) => assert_eq!(game, "Final Fantasy"),
        other => panic!("unexpected {other:?}"),
    }
    let catalogue = vec!["\"Final Fantasy\"".to_owned()];
    assert_eq!(
        add_game_among("Final Fantasy", "Bob", &catalogue),
        "Bob a ajouté Final Fantasy a sa liste de jeux possible"
    );
    assert_eq!(
        add_game_among("Zelda", "Bob", &catalogue),
        "Ce jeu n'est pas compatible avec Archipelago"
    );
    assert_eq!(
        answer(handle_command("!add_game https://example.org/Zelda")),
        "Url invalide : https://archipelago.miraheze.org/wiki/[nom_du_jeu]"
    );
    assert!(answer(handle_command("!add_game")).starts_with("Usage: !add_game"));
    assert_eq!(
        answer(handle_command("!help")),
        "Commande disponible dans ce salon: !help"
    );
}

#[test]
fn reads_the_games_of_a_json_catalogue() {
    let catalogue = r#"{"games": [{"name": "Final Fantasy"}, {"name": "Pokémon Emerald"}]}"#;
    assert_eq!(
        add_game("Final Fantasy", "Bob", catalogue).as_deref(),
        Some("Bob a ajouté Final Fantasy a sa liste de jeux possible")
    );
    assert_eq!(
        add_game("Pokémon Emerald", "Ann", catalogue).as_deref(),
        Some("Ann a ajouté Pokémon Emerald a sa liste de jeux possible")
    );
    assert_eq!(
        add_game("Zelda", "Bob", catalogue).as_deref(),
        Some("Ce jeu n'est pas compatible avec Archipelago")
    );
    // The catalogue text itself is no name: a body that kept it whole would
    // accept this game.
    assert_eq!(
        add_game("games", "Bob", r#"{"games": []}"#).as_deref(),
        Some("Ce jeu n'est pas compatible avec Archipelago")
    );
}

#[test]
fn refuses_a_catalogue_that_is_not_one() {
    assert_eq!(add_game("Final Fantasy", "Bob", "not json"), None);
    assert_eq!(add_game("Final Fantasy", "Bob", r#"{"games": 3}"#), None);
    assert_eq!(add_game("Final Fantasy", "Bob", r#"{"titles": []}"#), None);
}

#[test]
fn answers_the_magic_commands() {
    assert_eq!(
        magic_reply("!win @bob", &["Bob".to_owned()]),
        "Ajout d'une victoire pour Bob"
    );
    assert_eq!(magic_reply("!win", &[]), "Usage: !win [@user]");
    assert_eq!(magic_reply("!leaderboard", &[]), "Affichage du leaderboard");
    assert_eq!(
        magic_reply("!foo", &[]),
        "Commande inconnu ou indisponible dans ce salon"
    );
    assert_eq!(win("Ann"), "Ajout d'une victoire pour Ann");
}

#[test]
fn splits_the_games_file_into_lines() {
    assert_eq!(game_list("Celeste\r\nFinal_Fantasy\n"), ["Celeste", "Final_Fantasy"]);
    assert_eq!(game_list(""), Vec::<String>::new());
}

#[test]
fn refuses_then_adds_a_game_in_order() {
    let games = vec!["Celeste".to_owned()];
    let mut player = Player::new("Bob");
    assert_eq!(
        add_game_to(None, &games, &mut player, "Bob"),
        ("Url invalide : https://archipelago.miraheze.org/wiki/[nom_du_jeu]".to_owned(), false)
    );
    assert_eq!(
        add_game_to(Some("Zelda".to_owned()), &games, &mut player, "Bob"),
        ("Jeu non trouvé dans la liste des jeux compatibles".to_owned(), false)
    );
    assert!(player.games.is_empty());
    assert_eq!(
        add_game_to(Some("Celeste".to_owned()), &games, &mut player, "Bob"),
        ("Celeste ajouté à la liste de Bob !".to_owned(), true)
    );
    assert_eq!(player.games, ["Celeste"]);
    assert_eq!(
        add_game_to(Some("Celeste".to_owned()), &games, &mut player, "Bob"),
        ("Celeste est déjà dans la liste de Bob !".to_owned(), false)
    );
}

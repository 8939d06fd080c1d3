use goby_bot::mtg::card_list::{parse_text, CardList, ListError};
use goby_bot::mtg::commands::{
    build_message, encoding_refusal, explain, nobody_answer, preview, private_message,
    public_report, registered_answer, size_refusal, MESSAGE_LIMIT,
};
use goby_bot::mtg::store::{Match, Wanted};

fn card(name: &str) -> Wanted {
    Wanted {
        name: name.to_owned(),
        requested: 1,
        owned: 1,
    }
}

#[test]
fn preview_lists_every_card_when_they_all_fit() {
    assert_eq!(
        preview(&[card("Sol Ring"), card("Duress")]),
        "Sol Ring, Duress"
    );
}

#[test]
fn preview_counts_the_cards_it_leaves_out() {
    let cards: Vec<Wanted> = (0..8).map(|index| card(&format!("Card {index}"))).collect();

    assert_eq!(
        preview(&cards),
        "Card 0, Card 1, Card 2, Card 3, Card 4, … (+3)"
    );
}

#[test]
fn build_message_stays_under_the_discord_limit() {
    let lines: Vec<String> = (0..200).map(|index| format!("- line {index}")).collect();

    let message = build_message("header", &lines);

    assert!(message.len() <= MESSAGE_LIMIT);
    assert!(message.ends_with(" de plus."));
}

#[test]
fn build_message_keeps_every_line_that_fits() {
    let message = build_message("header", &["- one".to_owned(), "- two".to_owned()]);

    assert_eq!(message, "header\n- one\n- two");
}

#[test]
fn build_message_counts_the_lines_left_out() {
    let lines: Vec<String> = (0..200).map(|_| "x".repeat(99)).collect();
    let message = build_message("h", &lines);
    // Each line takes 100 bytes: 19 fit under 2000 - 40 after the header.
    assert!(message.starts_with("h\nxxx"));
    assert!(message.ends_with("\n… et 181 de plus."));
    assert!(message.len() <= MESSAGE_LIMIT);
}

#[test]
fn build_message_counts_bytes_not_characters() {
    let lines = vec!["é".repeat(970), "z".to_owned()];
    let message = build_message("h", &lines);
    assert_eq!(message, format!("h\n{}\nz", "é".repeat(970)));
    let lines = vec!["é".repeat(990)];
    assert_eq!(build_message("h", &lines), "h\n… et 1 de plus.");
}

#[test]
fn preview_of_no_card_is_empty() {
    assert_eq!(preview(&[]), "");
}

#[test]
fn explains_each_list_error() {
    assert_eq!(
        explain(ListError::UnknownColumns, "a.csv"),
        "Les colonnes de `a.csv` ne sont pas reconnues, il faut une colonne `Name` et une colonne `Quantity`, comme dans un export ManaBox."
    );
    assert_eq!(
        explain(ListError::Empty, "deck.txt"),
        "Aucune carte n'a été trouvée dans `deck.txt`. Attendu un export ManaBox (`.csv`) ou une carte par ligne (`.txt`)."
    );
}

#[test]
fn tells_what_was_registered() {
    assert_eq!(
        registered_answer(3, 7, "deck.txt", None),
        "Liste enregistrée : **3 cartes** (7 exemplaires) depuis `deck.txt`."
    );
    assert_eq!(
        registered_answer(3, 7, "deck.txt", Some(12)),
        "Liste enregistrée : **3 cartes** (7 exemplaires) depuis `deck.txt`.\nElle remplace ta liste précédente de 12 cartes."
    );
}

#[test]
fn refuses_large_and_non_text_files() {
    assert_eq!(size_refusal("a.csv", 4 * 1024 * 1024), None);
    assert_eq!(
        size_refusal("a.csv", 4 * 1024 * 1024 + 1).unwrap(),
        "`a.csv` est trop volumineux, la limite est de 4096 Kio."
    );
    assert_eq!(
        encoding_refusal("a.bin"),
        "`a.bin` doit être un fichier texte encodé en UTF-8."
    );
    assert_eq!(
        nobody_answer(4, "deck.txt"),
        "Aucun joueur ne possède les 4 cartes de `deck.txt`."
    );
}

#[test]
fn writes_the_private_message() {
    let cards = vec![Wanted { name: "Duress".to_owned(), requested: 2, owned: 3 }];
    assert_eq!(
        private_message(12, Some("La poissonnerie"), 34, &cards),
        "<@12> cherche des cartes sur **La poissonnerie** (<#34>), tu en possèdes **1** :\n- 2× Duress (tu en as 3)"
    );
    assert_eq!(
        private_message(12, None, 34, &cards),
        "<@12> cherche des cartes sur **ce serveur** (<#34>), tu en possèdes **1** :\n- 2× Duress (tu en as 3)"
    );
}

fn three_cards() -> CardList {
    parse_text("Sol Ring\nDuress\nOpt\n")
}

#[test]
fn writes_the_public_report() {
    let matches = vec![
        Match { user_id: 7, cards: vec![card("Sol Ring"), card("Duress")] },
        Match { user_id: 8, cards: vec![card("Duress")] },
    ];
    assert_eq!(
        public_report("deck.txt", &three_cards(), &matches, &[]),
        "**2** joueurs possèdent des 3 cartes de `deck.txt` :\n- <@7> — 2 cartes : Sol Ring, Duress\n- <@8> — 1 cartes : Duress\nChacun a reçu sa liste en message privé."
    );
    assert_eq!(
        public_report("deck.txt", &three_cards(), &matches[1..], &[8, 9]),
        "**1** joueur possède des 3 cartes de `deck.txt` :\n- <@8> — 1 cartes : Duress\nMessage privé impossible pour <@8>, <@9>, contacte-les directement."
    );
}

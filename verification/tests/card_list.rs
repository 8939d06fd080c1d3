use goby_bot::mtg::card_list::{
    fits, is_csv_filename, parse, parse_csv, parse_text, read, Card, CardList, ListError,
};

/// Header of a ManaBox collection export.
const MANABOX_HEADER: &str = "Name,Set code,Set name,Collector number,Foil,Rarity,Quantity,\
     ManaBox ID,Scryfall ID,Purchase price,Misprint,Altered,Condition,Language,\
     Purchase price currency";

fn entries(list: &CardList) -> Vec<(&str, u32)> {
    list.cards
        .iter()
        .map(|card| (card.name.as_str(), card.quantity))
        .collect()
}

#[test]
fn reads_the_usual_export_formats() {
    let list = parse_text(
        "# my deck\n\
         1 Sol Ring\n\
         4x Lightning Bolt (M10) 146\n\
         2 Arcane Signet *F*\n\
         Command Tower\n",
    );

    assert_eq!(
        entries(&list),
        [
            ("Sol Ring", 1),
            ("Lightning Bolt", 4),
            ("Arcane Signet", 2),
            ("Command Tower", 1),
        ]
    );
}

#[test]
fn skips_blank_lines_comments_and_section_headers() {
    let list = parse_text("\nDeck\n// note\nSideboard\n\n2 Duress\n");

    assert_eq!(list.len(), 1);
    assert_eq!(list.cards[0].name, "Duress");
}

#[test]
fn merges_the_lines_naming_the_same_card() {
    let list = parse_text("2 sol ring\n1 Sol Ring\n1 SOL RING (LEA) 1\n");

    assert_eq!(list.len(), 1);
    assert_eq!(list.copies(), 4);
    // The first spelling seen is the one kept for display.
    assert_eq!(list.cards[0].name, "sol ring");
}

#[test]
fn matches_names_across_punctuation_and_casing() {
    let owned = parse_text("1 Urza's Saga\n").quantities();

    assert!(owned.contains_key(&parse_text("1 urzas saga").cards[0].key()));
}

#[test]
fn keeps_leading_digits_that_are_not_followed_by_a_space() {
    let list = parse_text("Chandra, Torch of Defiance\n7th Edition Forest\n");

    assert_eq!(list.cards[0].name, "Chandra, Torch of Defiance");
    assert_eq!(list.cards[0].quantity, 1);
    assert_eq!(list.cards[1].name, "7th Edition Forest");
    assert_eq!(list.cards[1].quantity, 1);
}

#[test]
fn drops_entries_with_an_explicit_zero() {
    assert!(parse_text("0 Sol Ring\n").is_empty());
}

#[test]
fn reads_a_manabox_export() {
    let content = format!(
        "{MANABOX_HEADER}\n\
         \"Chandra, Torch of Defiance\",KLD,Kaladesh,110,normal,mythic,1,1234,abc,5.20,\
         false,false,near_mint,en,EUR\n\
         Sol Ring,C21,Commander 2021,263,normal,uncommon,2,5678,def,1.50,\
         false,false,near_mint,fr,EUR\n"
    );

    let list = parse("collection.csv", &content).unwrap();

    assert_eq!(
        entries(&list),
        [("Chandra, Torch of Defiance", 1), ("Sol Ring", 2)]
    );
}

#[test]
fn adds_up_the_foil_and_regular_rows_of_a_card() {
    let content = format!(
        "{MANABOX_HEADER}\n\
         Sol Ring,C21,Commander 2021,263,normal,uncommon,2,1,a,1.50,false,false,near_mint,en,EUR\n\
         Sol Ring,C21,Commander 2021,263,foil,uncommon,1,2,b,4.00,false,false,near_mint,en,EUR\n"
    );

    let list = parse("collection.csv", &content).unwrap();

    assert_eq!(entries(&list), [("Sol Ring", 3)]);
}

#[test]
fn matches_a_manabox_name_against_a_deck_list_name() {
    let content = format!(
        "{MANABOX_HEADER}\n\
         \"Urza's Saga\",MH2,Modern Horizons 2,259,normal,rare,1,1,a,30.0,\
         false,false,near_mint,en,EUR\n"
    );

    let owned = parse("collection.csv", &content).unwrap().quantities();

    assert!(owned.contains_key(&parse_text("1 Urza's Saga (MH2) 259").cards[0].key()));
}

#[test]
fn reads_a_csv_holding_only_the_two_useful_columns() {
    let list = parse("export.csv", "Quantity,Name\n3,Duress\n").unwrap();

    assert_eq!(entries(&list), [("Duress", 3)]);
}

#[test]
fn refuses_a_csv_whose_header_names_no_card_column() {
    let error = parse("collection.csv", "Foo,Bar\n1,2\n").unwrap_err();

    assert_eq!(error, ListError::UnknownColumns);
}

#[test]
fn reads_a_deck_list_whose_names_hold_commas_as_text() {
    // Two fields once split on commas, but neither names a column.
    let list = parse("deck.txt", "1 Chandra, Torch of Defiance\n").unwrap();

    assert_eq!(entries(&list), [("Chandra, Torch of Defiance", 1)]);
}

#[test]
fn reports_a_file_holding_no_card() {
    let error = parse("deck.txt", "\n# nothing\n").unwrap_err();

    assert_eq!(error, ListError::Empty);
}

#[test]
fn key_ignores_case_apostrophes_commas_and_spacing() {
    let card = Card { name: "  Urza\u{2019}s,   SAGA. ".to_owned(), quantity: 1 };
    assert_eq!(card.key(), "urzas saga");
}

#[test]
fn drops_a_leading_byte_order_mark() {
    let list = parse("deck.txt", "\u{feff}\u{feff}2 Duress\n").unwrap();
    assert_eq!(entries(&list), [("Duress", 2)]);
}

#[test]
fn tells_csv_file_names_by_their_extension() {
    assert!(is_csv_filename("Collection.CSV"));
    assert!(is_csv_filename("csv"));
    assert!(!is_csv_filename("deck.csv.txt"));
    assert!(!is_csv_filename("deck"));
}

#[test]
fn keeps_a_quantity_marker_only_before_whitespace() {
    let list = parse_text("3X Duress\n4xDuress\n99999999999 Ponder\n");
    assert_eq!(
        entries(&list),
        [("Duress", 3), ("4xDuress", 1), ("99999999999 Ponder", 1)]
    );
}

#[test]
fn counts_a_row_without_quantity_column_as_one_copy() {
    let list = parse_csv("Card Name,Set\nDuress,M19\nDuress,M20\n").unwrap();
    assert_eq!(entries(&list), [("Duress", 2)]);
}

#[test]
fn skips_rows_whose_quantity_is_not_a_number() {
    let list = parse_csv("Name,Count\nDuress,many\nPonder, +2 \nOpt,0\n").unwrap();
    assert_eq!(entries(&list), [("Ponder", 2)]);
}

#[test]
fn tells_a_table_from_a_deck_list() {
    assert!(parse_csv("1 Sol Ring\n").is_none());
    assert!(parse_csv("").is_none());
}

#[test]
fn counts_all_copies_of_a_list() {
    let list = parse_text("2 Duress\n3 Ponder\n");
    assert!(list.copies_fit());
    assert_eq!(list.copies(), 5);
}

#[test]
fn reports_totals_that_overflow() {
    assert!(fits("deck.txt", "4000000000 Duress\n"));
    assert!(!fits("deck.txt", "4000000000 Duress\n4000000000 duress\n"));
    let list = CardList {
        cards: vec![
            Card { name: "A".to_owned(), quantity: 4000000000 },
            Card { name: "B".to_owned(), quantity: 4000000000 },
        ],
    };
    assert!(!list.copies_fit());
}

#[test]
fn keeps_a_section_header_word_with_a_quantity() {
    let list = parse_text("Sideboard\n1 Sideboard\n");
    assert_eq!(entries(&list), [("Sideboard", 1)]);
}

fn key_of(name: &str) -> String {
    Card { name: name.to_owned(), quantity: 1 }.key()
}

#[test]
fn keys_ignore_case_punctuation_and_spacing() {
    assert_eq!(key_of("SOL RING"), "sol ring");
    assert_eq!(key_of("Sol Ring"), key_of("SOL RING"));
    assert_eq!(key_of("  Sol \t\t Ring \n"), "sol ring");
    assert_eq!(key_of("Urza\u{2019}s Saga."), key_of("urzas saga"));
    assert_eq!(key_of("Chandra, Torch of Defiance"), "chandra torch of defiance");
}

#[test]
fn counts_the_distinct_cards_of_the_quantities() {
    let list = parse_text("2 Sol Ring\n1 Duress\n");
    let quantities = list.quantities();
    assert_eq!(quantities.len(), 2);
    assert_eq!(quantities.get(&"sol ring".to_owned()), Some(2));
    let doubled = CardList {
        cards: vec![
            Card { name: "Sol Ring".to_owned(), quantity: 2 },
            Card { name: "SOL RING".to_owned(), quantity: 5 },
        ],
    };
    let quantities = doubled.quantities();
    assert_eq!(quantities.len(), 1);
    assert_eq!(quantities.get(&"sol ring".to_owned()), Some(5));
    assert!(!quantities.contains_key(&"duress".to_owned()));
}

#[test]
fn reads_a_list_whose_totals_fit() {
    let list = read("deck.txt", "2 Sol Ring\n").unwrap().unwrap();
    assert_eq!(entries(&list), [("Sol Ring", 2)]);
    assert_eq!(read("deck.txt", "# nothing\n").unwrap().unwrap_err(), ListError::Empty);
    assert!(read("deck.txt", "4294967295 Sol Ring\n1 Sol Ring\n").is_none());
}

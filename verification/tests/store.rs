use goby_bot::mtg::card_list::{parse_text, Card, CardList};
use goby_bot::mtg::store::{Collection, Store};

fn list(names: &[(&str, u32)]) -> CardList {
    CardList {
        cards: names
            .iter()
            .map(|(name, quantity)| Card { name: (*name).to_owned(), quantity: *quantity })
            .collect(),
    }
}

fn names(list: &CardList) -> Vec<(String, u32)> {
    list.cards.iter().map(|card| (card.name.clone(), card.quantity)).collect()
}

#[test]
fn gives_back_the_list_registered_last() {
    let mut store = Store::new();
    assert!(store.get(1, 2).is_none());
    store.set(1, 2, list(&[("Duress", 2)]));
    store.set(1, 3, list(&[("Opt", 1)]));
    store.set(1, 2, list(&[("Ponder", 4)]));
    assert_eq!(names(&store.get(1, 2).unwrap()), [("Ponder".to_owned(), 4)]);
    assert_eq!(names(&store.get(1, 3).unwrap()), [("Opt".to_owned(), 1)]);
    assert!(store.get(2, 2).is_none());
}

#[test]
fn finds_the_members_holding_wanted_cards_most_matches_first() {
    let mut store = Store::new();
    store.set(1, 10, list(&[("Sol Ring", 1), ("Opt", 3)]));
    store.set(1, 11, list(&[("Urza's Saga", 2), ("sol ring", 1), ("Duress", 1)]));
    store.set(2, 12, list(&[("Sol Ring", 1)]));
    store.set(1, 13, list(&[("Ponder", 1)]));
    let wanted = parse_text("2 Sol Ring\n1 urzas saga\n");
    let matches = store.matches(1, &wanted);
    assert_eq!(matches.len(), 2);
    assert_eq!(matches[0].user_id, 11);
    assert_eq!(matches[0].cards.len(), 2);
    assert_eq!(matches[0].cards[0].name, "Urza's Saga");
    assert_eq!(matches[0].cards[0].requested, 1);
    assert_eq!(matches[0].cards[0].owned, 2);
    assert_eq!(matches[0].cards[1].requested, 2);
    assert_eq!(matches[1].user_id, 10);
    assert_eq!(matches[1].cards[0].name, "Sol Ring");
}

#[test]
fn lists_the_asker_like_anyone_else() {
    let mut store = Store::new();
    store.set(1, 10, list(&[("Opt", 1)]));
    let wanted = list(&[("Opt", 1)]);
    let matches = store.matches(1, &wanted);
    assert_eq!(matches.len(), 1);
    assert_eq!(matches[0].user_id, 10);
}

#[test]
fn keeps_the_store_order_between_members_with_as_many_matches() {
    let mut store = Store::new();
    store.set(1, 20, list(&[("Opt", 1)]));
    store.set(1, 21, list(&[("Opt", 1), ("Duress", 1)]));
    store.set(1, 22, list(&[("Duress", 1)]));
    let wanted = list(&[("Opt", 1), ("Duress", 1)]);
    let users: Vec<u64> = store.matches(1, &wanted).iter().map(|m| m.user_id).collect();
    assert_eq!(users, [21, 20, 22]);
}

#[test]
fn reloads_what_it_wrote_down() {
    let mut store = Store::new();
    store.set(1, 2, list(&[("Duress", 2)]));
    store.set(3, 4, list(&[("Opt", 1)]));
    let records = store.records();
    assert_eq!(records.len(), 2);
    let reloaded = Store::from_records(records);
    assert_eq!(names(&reloaded.get(1, 2).unwrap()), [("Duress".to_owned(), 2)]);
    assert_eq!(names(&reloaded.get(3, 4).unwrap()), [("Opt".to_owned(), 1)]);
}

#[test]
fn keeps_the_last_record_of_a_member() {
    let records = vec![
        Collection { guild_id: 1, user_id: 2, cards: list(&[("Duress", 2)]).cards },
        Collection { guild_id: 1, user_id: 2, cards: list(&[("Opt", 1)]).cards },
    ];
    let store = Store::from_records(records);
    assert_eq!(names(&store.get(1, 2).unwrap()), [("Opt".to_owned(), 1)]);
    assert_eq!(store.records().len(), 1);
}

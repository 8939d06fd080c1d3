use goby_bot::admin::commands::{format_report, FeatureChoice};
use goby_bot::admin::init::{plan, Category, Feature, InitReport, Object, Role};
use goby_bot::admin::role_select::{
    find_named, role_for_button, toggle, toggle_answer, Toggle, ARCHI_BUTTON_ID, MTG_BUTTON_ID,
};
use goby_bot::admin::{ARCHI_ROLE, MTG_ROLE};
use goby_bot::mtg::access::{
    category_step, first_check, is_mtg_category, verdict, ChannelKind, Check, Place, Seen, Step,
    Verdict,
};

#[test]
fn maps_each_choice_to_its_feature() {
    assert_eq!(Feature::from(FeatureChoice::Mtg), Feature::Mtg);
    assert_eq!(Feature::from(FeatureChoice::Archi), Feature::Archi);
    assert_eq!(Feature::from(FeatureChoice::Job), Feature::Job);
    assert_eq!(Feature::from(FeatureChoice::All), Feature::All);
}

#[test]
fn plans_the_objects_of_a_feature() {
    assert_eq!(
        plan(Feature::Mtg),
        [
            Object::Role(Role::Mtg),
            Object::Category(Category::Mtg),
            Object::Channel(Category::Mtg)
        ]
    );
    assert_eq!(plan(Feature::Job), [Object::JobChannel]);
    assert_eq!(plan(Feature::All).len(), 7);
}

#[test]
fn reports_a_first_run() {
    let mut report = InitReport::new();
    for object in plan(Feature::All) {
        report.record(object, object == Object::Role(Role::Mtg));
    }
    assert_eq!(
        format_report(&report),
        "Créé :\n- catégorie `Magic: le rassemblement`\n- salon `magic-general`\
         \n- rôle `Explorateur des îles`\n- catégorie `Archipelago`\n- salon `archipelago-general`\
         \n- salon `abaye-des-vocations`\n- message de sélection des rôles\
         \nDéjà présent :\n- rôle `Politicien des cartes`"
    );
}

#[test]
fn reports_nothing_to_do_on_a_second_run() {
    let mut report = InitReport::new();
    for object in plan(Feature::Job) {
        report.record(object, true);
    }
    assert!(report.created.is_empty());
    assert_eq!(
        format_report(&report),
        "Rien à faire, la fonctionnalité est déjà initialisée.\nDéjà présent :\n- salon `abaye-des-vocations`"
    );
    assert_eq!(
        format_report(&InitReport::new()),
        "Rien à faire, la fonctionnalité est déjà initialisée."
    );
}

#[test]
fn maps_buttons_to_roles() {
    assert_eq!(role_for_button(MTG_BUTTON_ID), Some(MTG_ROLE));
    assert_eq!(role_for_button(ARCHI_BUTTON_ID), Some(ARCHI_ROLE));
    assert_eq!(role_for_button("other"), None);
}

#[test]
fn toggles_a_role() {
    assert_eq!(toggle(false, true), Toggle::Missing);
    assert_eq!(toggle(true, true), Toggle::Remove);
    assert_eq!(toggle(true, false), Toggle::Add);
    assert_eq!(
        toggle_answer(MTG_ROLE, Toggle::Add),
        "Le rôle **Politicien des cartes** t'a été attribué."
    );
    assert_eq!(
        toggle_answer(MTG_ROLE, Toggle::Remove),
        "Le rôle **Politicien des cartes** t'a été retiré."
    );
    assert_eq!(
        toggle_answer(ARCHI_ROLE, Toggle::Missing),
        "Le rôle `Explorateur des îles` n'existe pas encore, un administrateur doit lancer `/init`."
    );
}

#[test]
fn finds_the_first_object_with_a_name() {
    let names = vec!["a".to_owned(), "b".to_owned(), "b".to_owned()];
    assert_eq!(find_named(&names, "b"), Some(1));
    assert_eq!(find_named(&names, "c"), None);
}

#[test]
fn goes_through_the_checks_in_order() {
    let mut check = first_check();
    assert_eq!(check, Check::Guild);
    for expected in [Check::RoleExists, Check::RoleHeld, Check::Category] {
        match verdict(check, true) {
            Verdict::Next(next) => {
                assert_eq!(next, expected);
                check = next;
            }
            other => panic!("unexpected {other:?}"),
        }
    }
    assert!(matches!(verdict(check, true), Verdict::Allow));
    match verdict(Check::RoleHeld, false) {
        Verdict::Refuse(text) => assert_eq!(
            text,
            "Il te faut le rôle `Politicien des cartes` pour utiliser cette commande."
        ),
        other => panic!("unexpected {other:?}"),
    }
}

#[test]
fn recognizes_the_magic_category() {
    assert!(is_mtg_category(ChannelKind::Category, "Magic: le rassemblement"));
    assert!(!is_mtg_category(ChannelKind::Other, "Magic: le rassemblement"));
    assert!(!is_mtg_category(ChannelKind::Category, "Archipelago"));
}

fn seen(kind: ChannelKind, has_parent: bool, name: &str) -> Seen {
    Seen { kind, has_parent, name: name.to_owned() }
}

#[test]
fn walks_from_the_channel_to_its_category() {
    let channel = seen(ChannelKind::Other, true, "trades");
    assert_eq!(category_step(Place::Used, Some(&channel)), Step::Fetch(Place::Category));
    let thread = seen(ChannelKind::Thread, true, "a thread");
    assert_eq!(category_step(Place::Used, Some(&thread)), Step::Fetch(Place::Parent));
    assert_eq!(category_step(Place::Parent, Some(&channel)), Step::Fetch(Place::Category));
    let lonely = seen(ChannelKind::Other, false, "general");
    assert_eq!(category_step(Place::Used, Some(&lonely)), Step::Answer(false));
    assert_eq!(category_step(Place::Used, None), Step::Answer(false));
    let category = seen(ChannelKind::Category, false, "Magic: le rassemblement");
    assert_eq!(category_step(Place::Category, Some(&category)), Step::Answer(true));
    let other = seen(ChannelKind::Category, false, "Jeux");
    assert_eq!(category_step(Place::Category, Some(&other)), Step::Answer(false));
}

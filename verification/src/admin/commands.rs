//! The `/init` administration command: its argument and its answer.

use vstd::prelude::*;

use crate::admin::init::{entries_text, Feature, InitReport};

verus! {

/// `feature` argument of `/init`.
#[derive(Debug, Clone, Copy, PartialEq, Eq, Structural)]
pub enum FeatureChoice {
    Mtg,
    Archi,
    Job,
    All,
}

/// The feature a choice of `/init` names.
pub open spec fn feature_of(choice: FeatureChoice) -> Feature {
    match choice {
        FeatureChoice::Mtg => Feature::Mtg,
        FeatureChoice::Archi => Feature::Archi,
        FeatureChoice::Job => Feature::Job,
        FeatureChoice::All => Feature::All,
    }
}

impl From<FeatureChoice> for Feature {
    fn from(choice: FeatureChoice) -> (r: Feature) {
        match choice {
            FeatureChoice::Mtg => Feature::Mtg,
            FeatureChoice::Archi => Feature::Archi,
            FeatureChoice::Job => Feature::Job,
            FeatureChoice::All => Feature::All,
        }
    }
}

impl vstd::std_specs::convert::FromSpecImpl<FeatureChoice> for Feature {
    open spec fn obeys_from_spec() -> bool {
        true
    }

    open spec fn from_spec(v: FeatureChoice) -> Feature {
        feature_of(v)
    }
}

/// Answer to a command used outside of a guild.
pub const OUTSIDE_GUILD: &'static str = "Cette commande n'est utilisable que dans un serveur.";

/// `title` followed by one `- item` line per item.
pub open spec fn item_lines(title: Seq<char>, items: Seq<Seq<char>>) -> Seq<char>
    decreases items.len(),
{
    if items.len() == 0 {
        title
    } else {
        item_lines(title, items.drop_last()) + "\n- "@ + items.last()
    }
}

/// Answer of `/init`: what was created, or that there was nothing to do, then
/// what was already present when something was.
pub open spec fn report_text(created: Seq<Seq<char>>, skipped: Seq<Seq<char>>) -> Seq<char> {
    let first = if created.len() == 0 {
        "Rien à faire, la fonctionnalité est déjà initialisée."@
    } else {
        item_lines("Créé :"@, created)
    };
    if skipped.len() == 0 {
        first
    } else {
        item_lines(first + "\nDéjà présent :"@, skipped)
    }
}

fn push_items(answer: &mut String, items: &Vec<String>)
    ensures
        final(answer)@ == item_lines(old(answer)@, entries_text(items@)),
{
    let ghost title = answer@;
    let ghost texts = entries_text(items@);
    let mut i: usize = 0;
    while i < items.len()
        invariant
            i <= items@.len(),
            texts == entries_text(items@),
            answer@ == item_lines(title, texts.take(i as int)),
        decreases items@.len() - i,
    {
        assert(texts.take(i + 1).drop_last() == texts.take(i as int));
        assert(texts.take(i + 1).last() == items@[i as int]@);
        answer.append("\n- ");
        answer.append(items[i].as_str());
        i += 1;
    }
    assert(texts.take(items@.len() as int) == texts);
}

/// Answer of `/init` from the report of its run.
pub fn format_report(report: &InitReport) -> (r: String)
    ensures
        r@ == report_text(entries_text(report.created@), entries_text(report.skipped@)),
{
    let mut answer = String::new();
    if report.created.len() == 0 {
        answer.append("Rien à faire, la fonctionnalité est déjà initialisée.");
        assert(answer@ =~= "Rien à faire, la fonctionnalité est déjà initialisée."@);
    } else {
        answer.append("Créé :");
        assert(answer@ =~= "Créé :"@);
        push_items(&mut answer, &report.created);
    }
    if report.skipped.len() > 0 {
        answer.append("\nDéjà présent :");
        push_items(&mut answer, &report.skipped);
    }
    answer
}

} // verus!

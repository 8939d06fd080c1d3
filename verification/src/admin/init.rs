//! Guild setup performed by `/init`.
//!
//! Every step is idempotent: an object that already exists is left untouched.
//! The steps and what a run reports are decided here; the bot looks the
//! objects up, creates the missing ones and tells each step what it found.

use vstd::prelude::*;

use crate::admin::{
    ARCHI_CATEGORY, ARCHI_CHANNEL, ARCHI_ROLE, JOB_CHANNEL, MTG_CATEGORY, MTG_CHANNEL, MTG_ROLE,
};

verus! {

/// Feature that `/init` can set up.
#[derive(Debug, Clone, Copy, PartialEq, Eq, Structural)]
pub enum Feature {
    Mtg,
    Archi,
    Job,
    All,
}

/// An object of the guild that a feature needs.
#[derive(Debug, Clone, Copy, PartialEq, Eq, Structural)]
pub enum Object {
    /// A role, hoisted and mentionable.
    Role(Role),
    /// A category only the role of its feature can see.
    Category(Category),
    /// The default text channel of a category, synced with it.
    Channel(Category),
    /// The read only channel carrying the role selection message.
    JobChannel,
}

/// The roles `/init` creates.
#[derive(Debug, Clone, Copy, PartialEq, Eq, Structural)]
pub enum Role {
    Mtg,
    Archi,
}

/// The private categories `/init` creates, each with its default channel.
#[derive(Debug, Clone, Copy, PartialEq, Eq, Structural)]
pub enum Category {
    Mtg,
    Archi,
}

/// Name of a role.
pub open spec fn role_name_spec(r: Role) -> Seq<char> {
    match r {
        Role::Mtg => MTG_ROLE@,
        Role::Archi => ARCHI_ROLE@,
    }
}

/// Name of a role.
pub fn role_name(r: Role) -> (s: &'static str)
    ensures
        s@ == role_name_spec(r),
{
    match r {
        Role::Mtg => MTG_ROLE,
        Role::Archi => ARCHI_ROLE,
    }
}

/// Name of a category.
pub open spec fn category_name_spec(c: Category) -> Seq<char> {
    match c {
        Category::Mtg => MTG_CATEGORY@,
        Category::Archi => ARCHI_CATEGORY@,
    }
}

/// Name of a category.
pub fn category_name(c: Category) -> (s: &'static str)
    ensures
        s@ == category_name_spec(c),
{
    match c {
        Category::Mtg => MTG_CATEGORY,
        Category::Archi => ARCHI_CATEGORY,
    }
}

/// Name of the default channel of a category.
pub open spec fn channel_name_spec(c: Category) -> Seq<char> {
    match c {
        Category::Mtg => MTG_CHANNEL@,
        Category::Archi => ARCHI_CHANNEL@,
    }
}

/// Name of the default channel of a category.
pub fn channel_name(c: Category) -> (s: &'static str)
    ensures
        s@ == channel_name_spec(c),
{
    match c {
        Category::Mtg => MTG_CHANNEL,
        Category::Archi => ARCHI_CHANNEL,
    }
}

/// The objects a feature needs, in the order they are set up: a role, then the
/// category it gates, then the channel of that category; the role selection
/// channel for `Job`; everything for `All`.
pub open spec fn feature_objects(f: Feature) -> Seq<Object> {
    match f {
        Feature::Mtg => seq![
            Object::Role(Role::Mtg),
            Object::Category(Category::Mtg),
            Object::Channel(Category::Mtg),
        ],
        Feature::Archi => seq![
            Object::Role(Role::Archi),
            Object::Category(Category::Archi),
            Object::Channel(Category::Archi),
        ],
        Feature::Job => seq![Object::JobChannel],
        Feature::All => seq![
            Object::Role(Role::Mtg),
            Object::Category(Category::Mtg),
            Object::Channel(Category::Mtg),
            Object::Role(Role::Archi),
            Object::Category(Category::Archi),
            Object::Channel(Category::Archi),
            Object::JobChannel,
        ],
    }
}

/// The Magic and the Archipelago features each set up their role, then the
/// category that role gates, then the channel of that category; the role
/// selection feature sets up its channel; `All` sets up all three features in
/// turn, so every object `/init` knows is planned once.
pub proof fn lemma_plan_shape()
    ensures
        feature_objects(Feature::Mtg) == seq![
            Object::Role(Role::Mtg),
            Object::Category(Category::Mtg),
            Object::Channel(Category::Mtg),
        ],
        feature_objects(Feature::Archi) == seq![
            Object::Role(Role::Archi),
            Object::Category(Category::Archi),
            Object::Channel(Category::Archi),
        ],
        feature_objects(Feature::Job) == seq![Object::JobChannel],
        feature_objects(Feature::All) == feature_objects(Feature::Mtg) + feature_objects(Feature::Archi)
            + feature_objects(Feature::Job),
        forall|o: Object| #[trigger] feature_objects(Feature::All).contains(o),
{
    let all = feature_objects(Feature::All);
    assert(all =~= feature_objects(Feature::Mtg) + feature_objects(Feature::Archi) + feature_objects(
        Feature::Job,
    ));
    assert forall|o: Object| #[trigger] all.contains(o) by {
        match o {
            Object::Role(Role::Mtg) => assert(all[0] == o),
            Object::Category(Category::Mtg) => assert(all[1] == o),
            Object::Channel(Category::Mtg) => assert(all[2] == o),
            Object::Role(Role::Archi) => assert(all[3] == o),
            Object::Category(Category::Archi) => assert(all[4] == o),
            Object::Channel(Category::Archi) => assert(all[5] == o),
            Object::JobChannel => assert(all[6] == o),
        }
    }
}

/// The objects the requested feature needs, in the order they are set up.
pub fn plan(f: Feature) -> (r: Vec<Object>)
    ensures
        r@ == feature_objects(f),
{
    let mut r: Vec<Object> = Vec::new();
    if f == Feature::Mtg || f == Feature::All {
        r.push(Object::Role(Role::Mtg));
        r.push(Object::Category(Category::Mtg));
        r.push(Object::Channel(Category::Mtg));
    }
    if f == Feature::Archi || f == Feature::All {
        r.push(Object::Role(Role::Archi));
        r.push(Object::Category(Category::Archi));
        r.push(Object::Channel(Category::Archi));
    }
    if f == Feature::Job || f == Feature::All {
        r.push(Object::JobChannel);
    }
    assert(r@ =~= feature_objects(f));
    r
}

/// What a single `/init` run changed, so the admin knows what was already there.
#[derive(Debug)]
pub struct InitReport {
    pub created: Vec<String>,
    pub skipped: Vec<String>,
}

/// How a report names an object.
pub open spec fn object_label(o: Object) -> Seq<char> {
    match o {
        Object::Role(r) => "rôle `"@ + role_name_spec(r) + "`"@,
        Object::Category(c) => "catégorie `"@ + category_name_spec(c) + "`"@,
        Object::Channel(c) => "salon `"@ + channel_name_spec(c) + "`"@,
        Object::JobChannel => "salon `"@ + JOB_CHANNEL@ + "`"@,
    }
}

/// Entry reporting the role selection message sent in a new role selection
/// channel.
pub open spec fn selection_message_label() -> Seq<char> {
    "message de sélection des rôles"@
}

/// Texts of report entries.
pub open spec fn entries_text(items: Seq<String>) -> Seq<Seq<char>> {
    items.map_values(|s: String| s@)
}

/// The created and skipped entries once a step has reported whether its
/// object was already there: an existing object is skipped, a missing one is
/// created, and a new role selection channel comes with its message.
pub open spec fn record_spec(
    created: Seq<Seq<char>>,
    skipped: Seq<Seq<char>>,
    o: Object,
    existed: bool,
) -> (Seq<Seq<char>>, Seq<Seq<char>>) {
    if existed {
        (created, skipped.push(object_label(o)))
    } else if o == Object::JobChannel {
        (created.push(object_label(o)).push(selection_message_label()), skipped)
    } else {
        (created.push(object_label(o)), skipped)
    }
}

fn label(o: Object) -> (r: String)
    ensures
        r@ == object_label(o),
{
    match o {
        Object::Role(role) => {
            let mut r = String::from_str("rôle `");
            r.append(role_name(role));
            r.append("`");
            r
        },
        Object::Category(c) => {
            let mut r = String::from_str("catégorie `");
            r.append(category_name(c));
            r.append("`");
            r
        },
        Object::Channel(c) => {
            let mut r = String::from_str("salon `");
            r.append(channel_name(c));
            r.append("`");
            r
        },
        Object::JobChannel => {
            let mut r = String::from_str("salon `");
            r.append(JOB_CHANNEL);
            r.append("`");
            r
        },
    }
}

impl InitReport {
    /// A report of a run that has done nothing yet.
    pub fn new() -> (r: InitReport)
        ensures
            r.created@.len() == 0,
            r.skipped@.len() == 0,
    {
        InitReport { created: Vec::new(), skipped: Vec::new() }
    }

    /// Records an object the run created.
    pub fn created(&mut self, what: String)
        ensures
            final(self).created@ == old(self).created@.push(what),
            final(self).skipped@ == old(self).skipped@,
    {
        self.created.push(what);
    }

    /// Records an object that was already there.
    pub fn skipped(&mut self, what: String)
        ensures
            final(self).skipped@ == old(self).skipped@.push(what),
            final(self).created@ == old(self).created@,
    {
        self.skipped.push(what);
    }

    /// Records the outcome of the step setting up `o`: `existed` tells that
    /// the object was found and left untouched.
    pub fn record(&mut self, o: Object, existed: bool)
        ensures
            (entries_text(final(self).created@), entries_text(final(self).skipped@)) == record_spec(
                entries_text(old(self).created@),
                entries_text(old(self).skipped@),
                o,
                existed,
            ),
    {
        let ghost created = entries_text(self.created@);
        let ghost skipped = entries_text(self.skipped@);
        let text = label(o);
        if existed {
            self.skipped(text);
            assert(entries_text(self.skipped@) =~= skipped.push(object_label(o)));
            assert(entries_text(self.created@) =~= created);
        } else if o == Object::JobChannel {
            self.created(text);
            let message = String::from_str("message de sélection des rôles");
            self.created(message);
            assert(entries_text(self.created@) =~= created.push(object_label(o)).push(
                selection_message_label(),
            ));
            assert(entries_text(self.skipped@) =~= skipped);
        } else {
            self.created(text);
            assert(entries_text(self.created@) =~= created.push(object_label(o)));
            assert(entries_text(self.skipped@) =~= skipped);
        }
    }
}

impl Default for InitReport {
    fn default() -> (r: Self)
        ensures
            r.created@.len() == 0,
            r.skipped@.len() == 0,
    {
        InitReport::new()
    }
}

/// The entries of a run that went through `objects` in order, `existed`
/// telling for each whether it was already there.
pub open spec fn run_entries(objects: Seq<Object>, existed: Seq<bool>) -> (Seq<Seq<char>>, Seq<
    Seq<char>,
>)
    decreases objects.len(),
{
    if objects.len() == 0 || existed.len() != objects.len() {
        (seq![], seq![])
    } else {
        let (c, s) = run_entries(objects.drop_last(), existed.drop_last());
        record_spec(c, s, objects.last(), existed.last())
    }
}

/// Running `/init` on a guild where every object of the feature already
/// exists creates nothing and reports each object as already present.
pub proof fn lemma_rerun_creates_nothing(objects: Seq<Object>)
    ensures
        run_entries(objects, Seq::new(objects.len(), |i: int| true)).0.len() == 0,
        run_entries(objects, Seq::new(objects.len(), |i: int| true)).1 == objects.map_values(
            |o: Object| object_label(o),
        ),
    decreases objects.len(),
{
    let all = Seq::new(objects.len(), |i: int| true);
    if objects.len() > 0 {
        let t = objects.drop_last();
        assert(all.drop_last() =~= Seq::new(t.len(), |i: int| true));
        lemma_rerun_creates_nothing(t);
        assert(objects.map_values(|o: Object| object_label(o)) =~= t.map_values(
            |o: Object| object_label(o),
        ).push(object_label(objects.last())));
    } else {
        assert(objects.map_values(|o: Object| object_label(o)) =~= Seq::<Seq<char>>::empty());
    }
}

/// The objects of a guild holding `present` once a run has set up `objects`:
/// each of them was found or created.
pub open spec fn guild_after(objects: Seq<Object>, present: Set<Object>) -> Set<Object> {
    present + objects.to_set()
}

/// For each of `objects`, whether a guild holding `present` has it.
pub open spec fn found_in(objects: Seq<Object>, present: Set<Object>) -> Seq<bool> {
    Seq::new(objects.len(), |i: int| present.contains(objects[i]))
}

/// A second `/init` of a feature on a guild left as the first one left it,
/// whatever the guild held before, finds every object: it creates nothing and
/// reports each object of the feature as already present.
pub proof fn lemma_second_run_creates_nothing(f: Feature, present: Set<Object>)
    ensures
        run_entries(
            feature_objects(f),
            found_in(feature_objects(f), guild_after(feature_objects(f), present)),
        ).0.len() == 0,
        run_entries(
            feature_objects(f),
            found_in(feature_objects(f), guild_after(feature_objects(f), present)),
        ).1 == feature_objects(f).map_values(|o: Object| object_label(o)),
{
    let objects = feature_objects(f);
    let after = guild_after(objects, present);
    assert forall|i: int| 0 <= i < objects.len() implies after.contains(#[trigger] objects[i]) by {
        assert(objects.to_set().contains(objects[i]));
    }
    assert(found_in(objects, after) =~= Seq::new(objects.len(), |i: int| true));
    lemma_rerun_creates_nothing(objects);
}

} // verus!

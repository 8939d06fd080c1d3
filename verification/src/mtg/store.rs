//! The card lists registered with `/have`, kept per member of a guild.
//!
//! Members are told apart by the numeric ids Discord gives guilds and users.

use vstd::prelude::*;

use crate::mtg::card_list::{name_key, quantity_map, Card, CardList, Quantities};

verus! {

/// A card the asker is looking for and a member holds.
#[derive(Debug)]
pub struct Wanted {
    pub name: String,
    /// Copies the asker is looking for.
    pub requested: u32,
    /// Copies the member holds.
    pub owned: u32,
}

/// Cards of one member that another member is looking for.
#[derive(Debug)]
pub struct Match {
    pub user_id: u64,
    pub cards: Vec<Wanted>,
}

/// The card list one member registered in one guild.
#[derive(Debug)]
pub struct Collection {
    pub guild_id: u64,
    pub user_id: u64,
    pub cards: Vec<Card>,
}

/// The card lists of every member.
#[derive(Debug)]
pub struct Store {
    collections: Vec<Collection>,
}

/// Owner of a card list: a guild and a member of it.
pub open spec fn owner_of(c: Collection) -> (u64, u64) {
    (c.guild_id, c.user_id)
}

/// The card lists of `collections` by owner; of two lists of one owner the
/// later one counts.
pub open spec fn collections_map(collections: Seq<Collection>) -> Map<(u64, u64), Seq<Card>>
    decreases collections.len(),
{
    if collections.len() == 0 {
        Map::empty()
    } else {
        collections_map(collections.drop_last()).insert(
            owner_of(collections.last()),
            collections.last().cards@,
        )
    }
}

/// No owner has two lists.
pub open spec fn distinct_owners(collections: Seq<Collection>) -> bool {
    forall|i: int, j: int|
        0 <= i < j < collections.len() ==> owner_of(#[trigger] collections[i]) != owner_of(
            #[trigger] collections[j],
        )
}

/// Name, copies asked for and copies held of a wanted card.
pub open spec fn wanted_view(w: Wanted) -> (Seq<char>, u32, u32) {
    (w.name@, w.requested, w.owned)
}

/// The cards of `cards` that `requested` asks for, in order, each with the
/// copies asked for and the copies held.
pub open spec fn wanted_of(cards: Seq<Card>, requested: Map<Seq<char>, u32>) -> Seq<
    (Seq<char>, u32, u32),
>
    decreases cards.len(),
{
    if cards.len() == 0 {
        seq![]
    } else {
        let before = wanted_of(cards.drop_last(), requested);
        let card = cards.last();
        if requested.contains_key(name_key(card.name@)) {
            before.push((card.name@, requested[name_key(card.name@)], card.quantity))
        } else {
            before
        }
    }
}

/// The wanted cards of a match.
pub open spec fn match_cards(m: Match) -> Seq<(Seq<char>, u32, u32)> {
    m.cards@.map_values(|w: Wanted| wanted_view(w))
}

/// `w` reports a card of `cards` the asker wants: the name of that card, the
/// copies of it the member holds, and the copies the asker asked for under its
/// comparison key.
pub open spec fn reports_held_card(cards: Seq<Card>, requested: Map<Seq<char>, u32>, w: (Seq<char>, u32, u32)) -> bool {
    exists|j: int|
        0 <= j < cards.len() && (#[trigger] cards[j]).name@ == w.0 && cards[j].quantity == w.2
            && requested.contains_key(name_key(cards[j].name@)) && requested[name_key(cards[j].name@)]
            == w.1
}

/// Each wanted card of a member reports a card of the member's list as the
/// member holds it, with the copies the asker asked for; and each card of the
/// list the asker asks for is reported, with the copies the member holds.
pub proof fn lemma_wanted_cards(cards: Seq<Card>, requested: Map<Seq<char>, u32>)
    ensures
        forall|k: int|
            0 <= k < wanted_of(cards, requested).len() ==> reports_held_card(
                cards,
                requested,
                #[trigger] wanted_of(cards, requested)[k],
            ),
        forall|j: int|
            0 <= j < cards.len() && requested.contains_key(name_key((#[trigger] cards[j]).name@))
                ==> wanted_of(cards, requested).contains(
                (cards[j].name@, requested[name_key(cards[j].name@)], cards[j].quantity),
            ),
    decreases cards.len(),
{
    if cards.len() > 0 {
        let t = cards.drop_last();
        lemma_wanted_cards(t, requested);
        let before = wanted_of(t, requested);
        let w = wanted_of(cards, requested);
        let n = cards.len() - 1;
        assert(cards[n] == cards.last());
        assert forall|k: int| 0 <= k < w.len() implies reports_held_card(cards, requested, #[trigger] w[k]) by {
            if k < before.len() {
                assert(w[k] == before[k]);
                let j = choose|j: int|
                    0 <= j < t.len() && (#[trigger] t[j]).name@ == before[k].0 && t[j].quantity
                        == before[k].2 && requested.contains_key(name_key(t[j].name@))
                        && requested[name_key(t[j].name@)] == before[k].1;
                assert(cards[j] == t[j]);
            } else {
                assert(cards[n].name@ == w[k].0);
            }
        }
        assert forall|j: int|
            0 <= j < cards.len() && requested.contains_key(name_key((#[trigger] cards[j]).name@))
                implies w.contains((cards[j].name@, requested[name_key(cards[j].name@)], cards[j].quantity)) by {
            let e = (cards[j].name@, requested[name_key(cards[j].name@)], cards[j].quantity);
            if j < n {
                assert(t[j] == cards[j]);
                assert(before.contains(e));
                let k = choose|k: int| 0 <= k < before.len() && before[k] == e;
                assert(w[k] == before[k]);
            } else {
                assert(w[w.len() - 1] == e);
            }
        }
    }
}

proof fn lemma_map_by_index(cols: Seq<Collection>, key: (u64, u64))
    requires
        distinct_owners(cols),
    ensures
        collections_map(cols).contains_key(key) <==> exists|i: int|
            0 <= i < cols.len() && owner_of(#[trigger] cols[i]) == key,
        forall|i: int|
            0 <= i < cols.len() && owner_of(#[trigger] cols[i]) == key ==> collections_map(
                cols,
            )[key] == cols[i].cards@,
    decreases cols.len(),
{
    if cols.len() > 0 {
        let t = cols.drop_last();
        assert forall|i: int, j: int| 0 <= i < j < t.len() implies owner_of(#[trigger] t[i])
            != owner_of(#[trigger] t[j]) by {
            assert(t[i] == cols[i] && t[j] == cols[j]);
        }
        lemma_map_by_index(t, key);
        if owner_of(cols.last()) != key {
            if collections_map(cols).contains_key(key) {
                let i = choose|i: int| 0 <= i < t.len() && owner_of(#[trigger] t[i]) == key;
                assert(cols[i] == t[i]);
            }
            if exists|i: int| 0 <= i < cols.len() && owner_of(#[trigger] cols[i]) == key {
                let i = choose|i: int| 0 <= i < cols.len() && owner_of(#[trigger] cols[i]) == key;
                assert(i < t.len());
                assert(t[i] == cols[i]);
            }
            assert forall|i: int|
                0 <= i < cols.len() && owner_of(#[trigger] cols[i]) == key implies collections_map(
                cols,
            )[key] == cols[i].cards@ by {
                assert(t[i] == cols[i]);
            }
        } else {
            assert(owner_of(cols[cols.len() - 1]) == key);
        }
    }
}

proof fn lemma_same_map(a: Seq<Collection>, b: Seq<Collection>)
    requires
        distinct_owners(b),
        a.len() == b.len(),
        forall|k: int|
            0 <= k < a.len() ==> owner_of(#[trigger] a[k]) == owner_of(b[k]) && a[k].cards@
                == b[k].cards@,
    ensures
        distinct_owners(a),
        collections_map(a) == collections_map(b),
    decreases a.len(),
{
    assert forall|i: int, j: int| 0 <= i < j < a.len() implies owner_of(#[trigger] a[i]) != owner_of(
        #[trigger] a[j],
    ) by {
        assert(owner_of(a[i]) == owner_of(b[i]));
        assert(owner_of(a[j]) == owner_of(b[j]));
    }
    if a.len() > 0 {
        let ta = a.drop_last();
        let tb = b.drop_last();
        assert forall|i: int, j: int| 0 <= i < j < tb.len() implies owner_of(#[trigger] tb[i])
            != owner_of(#[trigger] tb[j]) by {
            assert(tb[i] == b[i] && tb[j] == b[j]);
        }
        assert forall|k: int| 0 <= k < ta.len() implies owner_of(#[trigger] ta[k]) == owner_of(tb[k])
            && ta[k].cards@ == tb[k].cards@ by {
            assert(ta[k] == a[k] && tb[k] == b[k]);
        }
        lemma_same_map(ta, tb);
        assert(owner_of(a.last()) == owner_of(b.last()));
    }
}

impl View for Store {
    type V = Map<(u64, u64), Seq<Card>>;

    /// The card list of every owner.
    closed spec fn view(&self) -> Map<(u64, u64), Seq<Card>> {
        collections_map(self.collections@)
    }
}

/// The cards of `cards` that `requested` asks for.
fn wanted_cards(cards: &Vec<Card>, requested: &Quantities) -> (r: Vec<Wanted>)
    ensures
        r@.map_values(|w: Wanted| wanted_view(w)) == wanted_of(cards@, requested@),
{
    let mut r: Vec<Wanted> = Vec::new();
    let mut i: usize = 0;
    while i < cards.len()
        invariant
            i <= cards@.len(),
            r@.map_values(|w: Wanted| wanted_view(w)) == wanted_of(cards@.take(i as int), requested@),
        decreases cards@.len() - i,
    {
        assert(cards@.take(i + 1).drop_last() == cards@.take(i as int));
        assert(cards@.take(i + 1).last() == cards@[i as int]);
        let ghost before = r@;
        let key = cards[i].key();
        match requested.get(&key) {
            Some(count) => {
                r.push(Wanted { name: cards[i].name.clone(), requested: count, owned: cards[i].quantity });
                assert(r@.map_values(|w: Wanted| wanted_view(w)) =~= before.map_values(
                    |w: Wanted| wanted_view(w),
                ).push((cards@[i as int].name@, count, cards@[i as int].quantity)));
            },
            None => {},
        }
        i += 1;
    }
    assert(cards@.take(cards@.len() as int) == cards@);
    r
}

fn clone_cards(cards: &Vec<Card>) -> (r: Vec<Card>)
    ensures
        r@ == cards@,
{
    let mut r: Vec<Card> = Vec::new();
    let mut i: usize = 0;
    while i < cards.len()
        invariant
            i <= cards@.len(),
            r@ == cards@.take(i as int),
        decreases cards@.len() - i,
    {
        let card = Card { name: cards[i].name.clone(), quantity: cards[i].quantity };
        r.push(card);
        assert(cards@.take(i + 1) == cards@.take(i as int).push(cards@[i as int]));
        i += 1;
    }
    assert(cards@.take(cards@.len() as int) == cards@);
    r
}

impl Store {
    /// No owner has two lists.
    pub closed spec fn wf(&self) -> bool {
        distinct_owners(self.collections@)
    }

    /// A store holding no list.
    pub fn new() -> (r: Store)
        ensures
            r.wf(),
            r@ == Map::<(u64, u64), Seq<Card>>::empty(),
    {
        let r = Store { collections: Vec::new() };
        assert(r@ =~= Map::<(u64, u64), Seq<Card>>::empty());
        r
    }

    /// Position of the list of an owner.
    fn position(&self, guild_id: u64, user_id: u64) -> (r: Option<usize>)
        ensures
            match r {
                Some(i) => i < self.collections@.len() && owner_of(self.collections@[i as int]) == (
                guild_id, user_id),
                None => forall|i: int|
                    0 <= i < self.collections@.len() ==> owner_of(#[trigger] self.collections@[i])
                        != (guild_id, user_id),
            },
    {
        let mut i: usize = 0;
        while i < self.collections.len()
            invariant
                i <= self.collections@.len(),
                forall|k: int|
                    0 <= k < i ==> owner_of(#[trigger] self.collections@[k]) != (guild_id, user_id),
            decreases self.collections@.len() - i,
        {
            if self.collections[i].guild_id == guild_id && self.collections[i].user_id == user_id {
                return Some(i);
            }
            i += 1;
        }
        None
    }

    /// Members of the guild owning at least one of the wanted cards, the ones
    /// with the most matches first. A member asking for cards they registered
    /// themselves appears in the answer like anyone else.
    ///
    /// Members with as many matches keep the order in which the store holds
    /// them, which the contract leaves open.
    pub fn matches(&self, guild_id: u64, wanted: &CardList) -> (r: Vec<Match>)
        requires
            self.wf(),
        ensures
            forall|i: int, j: int|
                0 <= i < j < r@.len() ==> (#[trigger] r@[i]).cards@.len() >= (
                #[trigger] r@[j]).cards@.len(),
            forall|i: int, j: int|
                0 <= i < j < r@.len() ==> (#[trigger] r@[i]).user_id != (#[trigger] r@[j]).user_id,
            forall|i: int|
                0 <= i < r@.len() ==> {
                    &&& self@.contains_key((guild_id, (#[trigger] r@[i]).user_id))
                    &&& match_cards(r@[i]) == wanted_of(
                        self@[(guild_id, r@[i].user_id)],
                        quantity_map(wanted.cards@),
                    )
                    &&& r@[i].cards@.len() > 0
                },
            forall|u: u64|
                #![trigger self@[(guild_id, u)]]
                self@.contains_key((guild_id, u)) && wanted_of(
                    self@[(guild_id, u)],
                    quantity_map(wanted.cards@),
                ).len() > 0 ==> exists|i: int| 0 <= i < r@.len() && (#[trigger] r@[i]).user_id == u,
            forall|i: int, k: int|
                #![trigger r@[i].cards@[k]]
                0 <= i < r@.len() && 0 <= k < r@[i].cards@.len() ==> reports_held_card(
                    self@[(guild_id, r@[i].user_id)],
                    quantity_map(wanted.cards@),
                    wanted_view(r@[i].cards@[k]),
                ),
    {
        let requested = wanted.quantities();
        let ghost req = quantity_map(wanted.cards@);
        let ghost cols = self.collections@;
        let mut result: Vec<Match> = Vec::new();
        let ghost mut src: Seq<int> = seq![];
        let mut k: usize = 0;
        while k < self.collections.len()
            invariant
                cols == self.collections@,
                distinct_owners(cols),
                requested@ == req,
                k <= cols.len(),
                src.len() == result@.len(),
                forall|i: int, j: int|
                    0 <= i < j < result@.len() ==> (#[trigger] result@[i]).cards@.len() >= (
                    #[trigger] result@[j]).cards@.len(),
                forall|p: int, q: int|
                    0 <= p < src.len() && 0 <= q < src.len() && p != q ==> #[trigger] src[p]
                        != #[trigger] src[q],
                forall|p: int|
                    0 <= p < src.len() ==> {
                        &&& 0 <= #[trigger] src[p] < k
                        &&& cols[src[p]].guild_id == guild_id
                        &&& result@[p].user_id == cols[src[p]].user_id
                        &&& match_cards(result@[p]) == wanted_of(cols[src[p]].cards@, req)
                        &&& result@[p].cards@.len() > 0
                    },
                forall|j: int|
                    0 <= j < k && (#[trigger] cols[j]).guild_id == guild_id && wanted_of(
                        cols[j].cards@,
                        req,
                    ).len() > 0 ==> exists|p: int| 0 <= p < src.len() && src[p] == j,
            decreases cols.len() - k,
        {
            if self.collections[k].guild_id == guild_id {
                let cards = wanted_cards(&self.collections[k].cards, &requested);
                // Pairing both counts here keeps them from drifting apart, a
                // card is kept only when the asker wants it.
                if cards.len() > 0 {
                    let count = cards.len();
                    let owner = Match { user_id: self.collections[k].user_id, cards };
                    let mut p: usize = 0;
                    while p < result.len() && result[p].cards.len() >= count
                        invariant
                            p <= result@.len(),
                            forall|q: int| 0 <= q < p ==> (#[trigger] result@[q]).cards@.len() >= count,
                        decreases result@.len() - p,
                    {
                        p += 1;
                    }
                    let ghost before = result@;
                    let ghost before_src = src;
                    result.insert(p, owner);
                    proof {
                        src = src.insert(p as int, k as int);
                        assert(result@ == before.insert(p as int, owner));
                        assert forall|i: int, j: int|
                            0 <= i < j < result@.len() implies (#[trigger] result@[i]).cards@.len() >= (
                            #[trigger] result@[j]).cards@.len() by {
                            if j < p {
                                assert(result@[i] == before[i] && result@[j] == before[j]);
                            } else if j == p {
                                assert(result@[i] == before[i]);
                            } else if i < p {
                                assert(result@[i] == before[i] && result@[j] == before[j - 1]);
                            } else if i == p {
                                assert(result@[j] == before[j - 1]);
                                assert(before[p as int].cards@.len() < count);
                            } else {
                                assert(result@[i] == before[i - 1] && result@[j] == before[j - 1]);
                            }
                        }
                        assert forall|a: int|
                            0 <= a < src.len() implies {
                                &&& 0 <= #[trigger] src[a] < k + 1
                                &&& cols[src[a]].guild_id == guild_id
                                &&& result@[a].user_id == cols[src[a]].user_id
                                &&& match_cards(result@[a]) == wanted_of(cols[src[a]].cards@, req)
                                &&& result@[a].cards@.len() > 0
                            } by {
                            if a < p {
                                assert(src[a] == before_src[a] && result@[a] == before[a]);
                            } else if a > p {
                                assert(src[a] == before_src[a - 1] && result@[a] == before[a - 1]);
                            }
                        }
                        assert forall|a: int, b: int|
                            0 <= a < src.len() && 0 <= b < src.len() && a != b implies #[trigger] src[a]
                                != #[trigger] src[b] by {
                            if a != p && b != p {
                                let a0 = if a < p { a } else { a - 1 };
                                let b0 = if b < p { b } else { b - 1 };
                                assert(src[a] == before_src[a0]);
                                assert(src[b] == before_src[b0]);
                            } else if a == p {
                                let b0 = if b < p { b } else { b - 1 };
                                assert(src[b] == before_src[b0]);
                            } else {
                                let a0 = if a < p { a } else { a - 1 };
                                assert(src[a] == before_src[a0]);
                            }
                        }
                        assert forall|j: int|
                            0 <= j < k + 1 && (#[trigger] cols[j]).guild_id == guild_id && wanted_of(
                                cols[j].cards@,
                                req,
                            ).len() > 0 implies exists|q: int| 0 <= q < src.len() && src[q] == j by {
                            if j == k {
                                assert(src[p as int] == j);
                            } else {
                                let q = choose|q: int| 0 <= q < before_src.len() && before_src[q] == j;
                                if q < p {
                                    assert(src[q] == j);
                                } else {
                                    assert(src[q + 1] == j);
                                }
                            }
                        }
                    }
                } else {
                    assert forall|j: int|
                        0 <= j < k + 1 && (#[trigger] cols[j]).guild_id == guild_id && wanted_of(
                            cols[j].cards@,
                            req,
                        ).len() > 0 implies exists|q: int| 0 <= q < src.len() && src[q] == j by {
                        if j == k {
                            assert(cards@.map_values(|w: Wanted| wanted_view(w)).len() == 0);
                        }
                    }
                }
            }
            k += 1;
        }
        proof {
            assert forall|i: int|
                0 <= i < result@.len() implies {
                    &&& self@.contains_key((guild_id, (#[trigger] result@[i]).user_id))
                    &&& match_cards(result@[i]) == wanted_of(self@[(guild_id, result@[i].user_id)], req)
                    &&& result@[i].cards@.len() > 0
                } by {
                let key = (guild_id, result@[i].user_id);
                lemma_map_by_index(cols, key);
                assert(owner_of(cols[src[i]]) == key);
            }
            assert forall|i: int, j: int|
                0 <= i < j < result@.len() implies (#[trigger] result@[i]).user_id != (
                #[trigger] result@[j]).user_id by {
                if src[i] < src[j] {
                    assert(owner_of(cols[src[i]]) != owner_of(cols[src[j]]));
                } else {
                    assert(owner_of(cols[src[j]]) != owner_of(cols[src[i]]));
                }
            }
            assert forall|u: u64|
                #![trigger self@[(guild_id, u)]]
                self@.contains_key((guild_id, u)) && wanted_of(self@[(guild_id, u)], req).len() > 0
                    implies exists|i: int| 0 <= i < result@.len() && (#[trigger] result@[i]).user_id == u by {
                lemma_map_by_index(cols, (guild_id, u));
                let j = choose|j: int| 0 <= j < cols.len() && owner_of(#[trigger] cols[j]) == (guild_id, u);
                assert(cols[j].guild_id == guild_id);
                let q = choose|q: int| 0 <= q < src.len() && src[q] == j;
                assert(result@[q].user_id == u);
            }
            assert forall|i: int, k: int|
                0 <= i < result@.len() && 0 <= k < result@[i].cards@.len() implies #[trigger] reports_held_card(
                    self@[(guild_id, result@[i].user_id)],
                    req,
                    wanted_view(result@[i].cards@[k]),
                ) by {
                let cards = self@[(guild_id, result@[i].user_id)];
                lemma_wanted_cards(cards, req);
                assert(match_cards(result@[i]) == wanted_of(cards, req));
                assert(match_cards(result@[i])[k] == wanted_view(result@[i].cards@[k]));
                assert(wanted_of(cards, req)[k] == wanted_view(result@[i].cards@[k]));
            }
        }
        result
    }

    /// The card lists of the store, one per owner, to write them down.
    pub fn records(&self) -> (r: Vec<Collection>)
        requires
            self.wf(),
        ensures
            distinct_owners(r@),
            collections_map(r@) == self@,
    {
        let mut r: Vec<Collection> = Vec::new();
        let mut i: usize = 0;
        while i < self.collections.len()
            invariant
                i <= self.collections@.len(),
                r@.len() == i,
                forall|k: int|
                    0 <= k < i ==> owner_of(#[trigger] r@[k]) == owner_of(self.collections@[k])
                        && r@[k].cards@ == self.collections@[k].cards@,
            decreases self.collections@.len() - i,
        {
            let c = &self.collections[i];
            r.push(Collection { guild_id: c.guild_id, user_id: c.user_id, cards: clone_cards(&c.cards) });
            i += 1;
        }
        proof {
            lemma_same_map(r@, self.collections@);
        }
        r
    }

    /// A store holding the given lists; of two lists of one owner the later one
    /// counts.
    pub fn from_records(records: Vec<Collection>) -> (r: Store)
        ensures
            r.wf(),
            r@ == collections_map(records@),
    {
        let mut store = Store::new();
        let mut i: usize = 0;
        while i < records.len()
            invariant
                i <= records@.len(),
                store.wf(),
                store@ == collections_map(records@.take(i as int)),
            decreases records@.len() - i,
        {
            assert(records@.take(i + 1).drop_last() == records@.take(i as int));
            assert(records@.take(i + 1).last() == records@[i as int]);
            let c = &records[i];
            store.set(c.guild_id, c.user_id, CardList { cards: clone_cards(&c.cards) });
            i += 1;
        }
        assert(records@.take(records@.len() as int) == records@);
        store
    }

    /// Card list a member registered, if any.
    pub fn get(&self, guild_id: u64, user_id: u64) -> (r: Option<CardList>)
        requires
            self.wf(),
        ensures
            match r {
                Some(list) => self@.contains_key((guild_id, user_id)) && list.cards@ == self@[(
                guild_id, user_id)],
                None => !self@.contains_key((guild_id, user_id)),
            },
    {
        proof {
            lemma_map_by_index(self.collections@, (guild_id, user_id));
        }
        match self.position(guild_id, user_id) {
            Some(i) => Some(CardList { cards: clone_cards(&self.collections[i].cards) }),
            None => None,
        }
    }

    /// Replaces the card list of a member, `/have` overwrites the previous one.
    pub fn set(&mut self, guild_id: u64, user_id: u64, list: CardList)
        requires
            old(self).wf(),
        ensures
            final(self).wf(),
            final(self)@ == old(self)@.insert((guild_id, user_id), list.cards@),
    {
        let ghost before = self.collections@;
        let key = (guild_id, user_id);
        let ghost new_cards = list.cards@;
        match self.position(guild_id, user_id) {
            Some(i) => {
                self.collections.set(i, Collection { guild_id, user_id, cards: list.cards });
                proof {
                    let after = self.collections@;
                    assert(distinct_owners(after)) by {
                        assert forall|a: int, b: int| 0 <= a < b < after.len() implies owner_of(
                            #[trigger] after[a],
                        ) != owner_of(#[trigger] after[b]) by {
                            assert(owner_of(after[a]) == owner_of(before[a]));
                            assert(owner_of(after[b]) == owner_of(before[b]));
                        }
                    }
                    assert forall|k: (u64, u64)| true implies #[trigger] collections_map(after).contains_key(k)
                        == old(self)@.insert(key, new_cards).contains_key(k) && (collections_map(
                        after,
                    ).contains_key(k) ==> collections_map(after)[k] == old(self)@.insert(
                        key,
                        new_cards,
                    )[k]) by {
                        lemma_map_by_index(before, k);
                        lemma_map_by_index(after, k);
                        if k == key {
                            assert(owner_of(after[i as int]) == k);
                        } else {
                            if exists|j: int| 0 <= j < before.len() && owner_of(#[trigger] before[j]) == k {
                                let j = choose|j: int| 0 <= j < before.len() && owner_of(#[trigger] before[j]) == k;
                                assert(after[j] == before[j]);
                            }
                            if exists|j: int| 0 <= j < after.len() && owner_of(#[trigger] after[j]) == k {
                                let j = choose|j: int| 0 <= j < after.len() && owner_of(#[trigger] after[j]) == k;
                                assert(after[j] == before[j]);
                            }
                        }
                    }
                    assert(collections_map(after) =~= old(self)@.insert(key, new_cards));
                }
            },
            None => {
                self.collections.push(Collection { guild_id, user_id, cards: list.cards });
                proof {
                    let after = self.collections@;
                    assert(after.drop_last() == before);
                    assert(distinct_owners(after)) by {
                        assert forall|a: int, b: int| 0 <= a < b < after.len() implies owner_of(
                            #[trigger] after[a],
                        ) != owner_of(#[trigger] after[b]) by {
                            assert(after[a] == before[a]);
                            if b < before.len() {
                                assert(after[b] == before[b]);
                            }
                        }
                    }
                }
            },
        }
    }
}


/// Registering a list replaces the previous one of its member: `get` then
/// gives the list just registered, and the lists of every other member are
/// unchanged. Stated over the views `set` and `get` are specified on.
pub proof fn lemma_set_then_get(
    lists: Map<(u64, u64), Seq<Card>>,
    owner: (u64, u64),
    cards: Seq<Card>,
    other: (u64, u64),
)
    ensures
        lists.insert(owner, cards).contains_key(owner),
        lists.insert(owner, cards)[owner] == cards,
        other != owner ==> lists.insert(owner, cards).contains_key(other) == lists.contains_key(
            other,
        ),
        other != owner && lists.contains_key(other) ==> lists.insert(owner, cards)[other]
            == lists[other],
{
}

} // verus!

//! The in-memory store of pages, keyed by page id, with running totals.
//!
//! Pages sit in two parallel vectors, one of ids and one of pages; no id
//! occurs twice, so the store behaves as a map from id to page. It never
//! holds more than `MAX_GAMES` pages: when full, it first drops the settled
//! pages and, if still full, the oldest half.

use std::time::Instant;

use vstd::prelude::*;

use crate::models::{Game, GameView};
use crate::os::monotonic_origin;

verus! {

/// The most pages the store keeps at once.
pub const MAX_GAMES: usize = 2000;

/// The map from keys to values that two parallel sequences with distinct
/// keys describe.
pub open spec fn table(ks: Seq<Seq<char>>, vs: Seq<GameView>) -> Map<Seq<char>, GameView> {
    Map::new(
        |k: Seq<char>| ks.contains(k),
        |k: Seq<char>| vs[choose|j: int| 0 <= j < ks.len() && ks[j] == k],
    )
}

/// The views of a sequence of ids.
pub open spec fn key_views(keys: Seq<String>) -> Seq<Seq<char>> {
    keys.map_values(|s: String| s@)
}

/// The views of a sequence of pages.
pub open spec fn game_views(games: Seq<Game>) -> Seq<GameView> {
    games.map_values(|g: Game| g@)
}

/// In a table of distinct keys, key `i` maps to value `i`.
proof fn lemma_table_get(ks: Seq<Seq<char>>, vs: Seq<GameView>, i: int)
    requires
        ks.no_duplicates(),
        ks.len() == vs.len(),
        0 <= i < ks.len(),
    ensures
        table(ks, vs).contains_key(ks[i]),
        table(ks, vs)[ks[i]] == vs[i],
{
    assert(ks.contains(ks[i]));
    let j = choose|j: int| 0 <= j < ks.len() && ks[j] == ks[i];
    assert(j == i);
}

/// Adding a new key at the end inserts it into the table.
proof fn lemma_table_push(ks: Seq<Seq<char>>, vs: Seq<GameView>, k: Seq<char>, v: GameView)
    requires
        ks.no_duplicates(),
        ks.len() == vs.len(),
        !ks.contains(k),
    ensures
        ks.push(k).no_duplicates(),
        table(ks.push(k), vs.push(v)) == table(ks, vs).insert(k, v),
{
    let ks2 = ks.push(k);
    let vs2 = vs.push(v);
    assert forall|a: int, b: int| 0 <= a < ks2.len() && 0 <= b < ks2.len() && a != b implies ks2[a]
        != ks2[b] by {
        if a < ks.len() && b < ks.len() {
        } else if a < ks.len() {
            assert(ks.contains(ks[a]));
        } else {
            assert(ks.contains(ks[b]));
        }
    }
    let t1 = table(ks2, vs2);
    let t2 = table(ks, vs).insert(k, v);
    assert forall|key: Seq<char>| t1.contains_key(key) <==> t2.contains_key(key) by {
        if ks2.contains(key) {
            let j = choose|j: int| 0 <= j < ks2.len() && ks2[j] == key;
            if j < ks.len() {
                assert(ks.contains(key));
            }
        }
        if ks.contains(key) {
            let j = choose|j: int| 0 <= j < ks.len() && ks[j] == key;
            assert(ks2[j] == key);
        }
        if key == k {
            assert(ks2[ks.len() as int] == k);
        }
    }
    assert forall|key: Seq<char>| t1.contains_key(key) implies t1[key] == t2[key] by {
        let j = choose|j: int| 0 <= j < ks2.len() && ks2[j] == key;
        lemma_table_get(ks2, vs2, j);
        if j < ks.len() {
            lemma_table_get(ks, vs, j);
        }
    }
    assert(t1 =~= t2);
}

/// Replacing value `i` replaces what key `i` maps to.
proof fn lemma_table_update(ks: Seq<Seq<char>>, vs: Seq<GameView>, i: int, v: GameView)
    requires
        ks.no_duplicates(),
        ks.len() == vs.len(),
        0 <= i < ks.len(),
    ensures
        table(ks, vs.update(i, v)) == table(ks, vs).insert(ks[i], v),
{
    let vs2 = vs.update(i, v);
    let t1 = table(ks, vs2);
    let t2 = table(ks, vs).insert(ks[i], v);
    assert(ks.contains(ks[i]));
    assert forall|key: Seq<char>| t1.contains_key(key) implies t1[key] == t2[key] by {
        let j = choose|j: int| 0 <= j < ks.len() && ks[j] == key;
        lemma_table_get(ks, vs2, j);
        lemma_table_get(ks, vs, j);
    }
    assert(t1 =~= t2);
}

/// Dropping entry `i` removes key `i` from the table.
proof fn lemma_table_remove(ks: Seq<Seq<char>>, vs: Seq<GameView>, i: int)
    requires
        ks.no_duplicates(),
        ks.len() == vs.len(),
        0 <= i < ks.len(),
    ensures
        ks.remove(i).no_duplicates(),
        table(ks.remove(i), vs.remove(i)) == table(ks, vs).remove(ks[i]),
{
    let ks2 = ks.remove(i);
    let vs2 = vs.remove(i);
    assert forall|a: int, b: int| 0 <= a < ks2.len() && 0 <= b < ks2.len() && a != b implies ks2[a]
        != ks2[b] by {
        let a1 = if a < i { a } else { a + 1 };
        let b1 = if b < i { b } else { b + 1 };
        assert(ks2[a] == ks[a1]);
        assert(ks2[b] == ks[b1]);
    }
    let t1 = table(ks2, vs2);
    let t2 = table(ks, vs).remove(ks[i]);
    assert forall|key: Seq<char>| t1.contains_key(key) <==> t2.contains_key(key) by {
        if ks2.contains(key) {
            let j = choose|j: int| 0 <= j < ks2.len() && ks2[j] == key;
            let j1 = if j < i { j } else { j + 1 };
            assert(ks[j1] == key);
            assert(ks.contains(key));
            assert(j1 != i);
        }
        if ks.contains(key) && key != ks[i] {
            let j = choose|j: int| 0 <= j < ks.len() && ks[j] == key;
            assert(j != i);
            let j2 = if j < i { j } else { j - 1 };
            assert(ks2[j2] == key);
        }
    }
    assert forall|key: Seq<char>| t1.contains_key(key) implies t1[key] == t2[key] by {
        let j = choose|j: int| 0 <= j < ks2.len() && ks2[j] == key;
        let j1 = if j < i { j } else { j + 1 };
        lemma_table_get(ks2, vs2, j);
        lemma_table_get(ks, vs, j1);
    }
    assert(t1 =~= t2);
}

/// The ids of the pages of `m` that are not settled yet.
pub open spec fn unfinished_ids(m: Map<Seq<char>, GameView>) -> Set<Seq<char>> {
    m.dom().filter(|k: Seq<char>| !m[k].finished)
}

/// Whether `after` is what making room in `before` leaves: every settled
/// page is dropped; of the others, all stay when fewer than `MAX_GAMES`
/// remain, and otherwise exactly `MAX_GAMES / 2` of the oldest are dropped
/// (every dropped page is at least as old as every kept one).
pub open spec fn is_pruning(before: Map<Seq<char>, GameView>, after: Map<Seq<char>, GameView>) -> bool {
    let u = unfinished_ids(before);
    &&& forall|k: Seq<char>| #[trigger] after.contains_key(k) ==> u.contains(k) && after[k] == before[k]
    &&& if u.len() < MAX_GAMES {
        after.dom() == u
    } else {
        &&& after.dom().len() == u.len() - MAX_GAMES / 2
        &&& forall|r: Seq<char>, k: Seq<char>|
            #![trigger u.contains(r), after.contains_key(k)]
            u.contains(r) && !after.contains_key(r) && after.contains_key(k) ==> before[r].created_at
                <= before[k].created_at
    }
}

/// What the store holds just before a new page goes in: unchanged when
/// there is room, else pruned.
pub open spec fn made_room(
    before: Map<Seq<char>, GameView>,
    before_size: nat,
    mid: Map<Seq<char>, GameView>,
) -> bool {
    if before_size < MAX_GAMES {
        mid == before
    } else {
        is_pruning(before, mid)
    }
}

/// The pages of `m0` that are kept after dropping the settled pages found at
/// positions `i..` of `ks`.
pub open spec fn kept_from(m0: Map<Seq<char>, GameView>, ks: Seq<Seq<char>>, i: int) -> Map<
    Seq<char>,
    GameView,
> {
    Map::new(
        |k: Seq<char>|
            m0.contains_key(k) && (!m0[k].finished || exists|p: int| 0 <= p < i && ks[p] == k),
        |k: Seq<char>| m0[k],
    )
}

/// All the pages in memory, keyed by id, and running totals: how many
/// pages were dealt, how many settlements won and how much they won.
pub struct GameStore {
    keys: Vec<String>,
    games: Vec<Game>,
    pub total_cards: u64,
    pub total_wins: u64,
    pub total_reward: u64,
    origin: Instant,
}

impl View for GameStore {
    type V = Map<Seq<char>, GameView>;

    /// The pages, keyed by id.
    closed spec fn view(&self) -> Map<Seq<char>, GameView> {
        table(key_views(self.keys@), game_views(self.games@))
    }
}

impl GameStore {
    /// Whether the store is sound: one page per id, no id twice, and at most
    /// `MAX_GAMES` pages.
    pub closed spec fn wf(&self) -> bool {
        &&& self.keys@.len() == self.games@.len()
        &&& key_views(self.keys@).no_duplicates()
        &&& self.keys@.len() <= MAX_GAMES
    }

    /// How many pages were dealt since the store was made (`total_cards`).
    pub closed spec fn cards_dealt(&self) -> u64 {
        self.total_cards
    }

    /// How many settlements won something (`total_wins`).
    pub closed spec fn winning_settlements(&self) -> u64 {
        self.total_wins
    }

    /// How much all settlements won together (`total_reward`).
    pub closed spec fn reward_paid(&self) -> u64 {
        self.total_reward
    }

    /// How many pages were dealt.
    pub fn total_cards(&self) -> (r: u64)
        ensures
            r == self.cards_dealt(),
    {
        self.total_cards
    }

    /// How many settlements won something.
    pub fn total_wins(&self) -> (r: u64)
        ensures
            r == self.winning_settlements(),
    {
        self.total_wins
    }

    /// How much all settlements won together.
    pub fn total_reward(&self) -> (r: u64)
        ensures
            r == self.reward_paid(),
    {
        self.total_reward
    }

    /// How many pages the store holds.
    pub closed spec fn size(&self) -> nat {
        self.keys@.len()
    }

    /// The store never holds more than `MAX_GAMES` pages, and its size is
    /// the number of ids it maps.
    pub proof fn law_size_bounded(&self)
        requires
            self.wf(),
        ensures
            self@.dom().finite(),
            self@.dom().len() == self.size(),
            self.size() <= MAX_GAMES,
    {
        let ks = key_views(self.keys@);
        ks.unique_seq_to_set();
        assert(self@.dom() =~= ks.to_set());
    }

    /// An empty store with all totals at zero.
    pub fn new() -> (s: GameStore)
        ensures
            s.wf(),
            s@ == Map::<Seq<char>, GameView>::empty(),
            s.cards_dealt() == 0,
            s.winning_settlements() == 0,
            s.reward_paid() == 0,
    {
        let s = GameStore {
            keys: Vec::new(),
            games: Vec::new(),
            total_cards: 0,
            total_wins: 0,
            total_reward: 0,
            origin: monotonic_origin(),
        };
        assert(s@ =~= Map::<Seq<char>, GameView>::empty());
        s
    }

    /// The monotonic clock reading, taken when the store was made, from
    /// which the pages dealt into it measure their age.
    pub fn clock(&self) -> &Instant {
        &self.origin
    }

    /// The position of the page with id `card_id`, if any.
    fn find(&self, card_id: &String) -> (r: Option<usize>)
        requires
            self.wf(),
        ensures
            match r {
                Some(i) => i < self.keys@.len() && self.keys@[i as int]@ == card_id@,
                None => !self@.contains_key(card_id@),
            },
    {
        let mut i: usize = 0;
        while i < self.keys.len()
            invariant
                self.wf(),
                i <= self.keys@.len(),
                forall|j: int| 0 <= j < i ==> self.keys@[j]@ != card_id@,
            decreases self.keys@.len() - i,
        {
            if self.keys[i] == *card_id {
                return Some(i);
            }
            i = i + 1;
        }
        proof {
            if key_views(self.keys@).contains(card_id@) {
                let j = choose|j: int| 0 <= j < self.keys@.len() && key_views(self.keys@)[j] == card_id@;
                assert(self.keys@[j]@ == card_id@);
            }
        }
        None
    }

    /// The position of the oldest page.
    fn oldest(&self) -> (i: usize)
        requires
            self.wf(),
            self.keys@.len() > 0,
        ensures
            i < self.keys@.len(),
            forall|j: int| 0 <= j < self.games@.len() ==> self.games@[i as int].created_at
                <= #[trigger] self.games@[j].created_at,
    {
        let mut best: usize = 0;
        let mut j: usize = 1;
        while j < self.games.len()
            invariant
                self.wf(),
                self.keys@.len() > 0,
                best < self.games@.len(),
                1 <= j <= self.games@.len(),
                forall|k: int| 0 <= k < j ==> self.games@[best as int].created_at
                    <= #[trigger] self.games@[k].created_at,
            decreases self.games@.len() - j,
        {
            if self.games[j].created_at < self.games[best].created_at {
                best = j;
            }
            j = j + 1;
        }
        best
    }

    /// Drops entry `i`.
    fn remove_at(&mut self, i: usize)
        requires
            old(self).wf(),
            i < old(self).keys@.len(),
        ensures
            final(self).wf(),
            final(self).size() == old(self).size() - 1,
            final(self)@ == old(self)@.remove(old(self).keys@[i as int]@),
            final(self).cards_dealt() == old(self).cards_dealt(),
            final(self).winning_settlements() == old(self).winning_settlements(),
            final(self).reward_paid() == old(self).reward_paid(),
            forall|p: int| 0 <= p < i ==> final(self).keys@[p] == old(self).keys@[p],
            forall|p: int| 0 <= p < i ==> final(self).games@[p] == old(self).games@[p],
    {
        proof {
            lemma_table_remove(key_views(self.keys@), game_views(self.games@), i as int);
            assert(key_views(self.keys@.remove(i as int)) =~= key_views(self.keys@).remove(i as int));
            assert(game_views(self.games@.remove(i as int)) =~= game_views(self.games@).remove(
                i as int,
            ));
        }
        self.keys.remove(i);
        self.games.remove(i);
    }

    /// Makes room: drops every settled page and, if the store is still
    /// full, the oldest half of what is left.
    fn prune(&mut self)
        requires
            old(self).wf(),
        ensures
            final(self).wf(),
            is_pruning(old(self)@, final(self)@),
            old(self).size() >= MAX_GAMES ==> final(self).size() < MAX_GAMES,
            final(self).cards_dealt() == old(self).cards_dealt(),
            final(self).winning_settlements() == old(self).winning_settlements(),
            final(self).reward_paid() == old(self).reward_paid(),
    {
        let ghost m0 = self@;
        let ghost k0 = key_views(self.keys@);
        let ghost g0 = game_views(self.games@);
        proof {
            assert(kept_from(m0, k0, k0.len() as int) =~= m0) by {
                assert forall|k: Seq<char>| m0.contains_key(k) implies exists|p: int|
                    0 <= p < k0.len() && k0[p] == k by {
                    let p = choose|p: int| 0 <= p < k0.len() && k0[p] == k;
                }
            }
        }
        let mut i: usize = self.keys.len();
        while i > 0
            invariant
                self.wf(),
                i <= self.keys@.len(),
                i <= k0.len(),
                k0.no_duplicates(),
                k0.len() == g0.len(),
                m0 == table(k0, g0),
                forall|p: int| 0 <= p < i ==> key_views(self.keys@)[p] == k0[p] && game_views(self.games@)[p] == g0[p],
                self@ == kept_from(m0, k0, i as int),
                self.cards_dealt() == old(self).cards_dealt(),
                self.winning_settlements() == old(self).winning_settlements(),
                self.reward_paid() == old(self).reward_paid(),
            decreases i,
        {
            let ghost before = self@;
            let p = i - 1;
            proof {
                lemma_table_get(k0, g0, p as int);
            }
            if self.games[p].finished {
                assert(key_views(self.keys@)[p as int] == k0[p as int]);
                self.remove_at(p);
                proof {
                    assert(kept_from(m0, k0, p as int) =~= before.remove(k0[p as int])) by {
                        assert forall|k: Seq<char>| kept_from(m0, k0, p as int).contains_key(k) <==> before.remove(k0[p as int]).contains_key(k) by {
                            if exists|q: int| 0 <= q < i && k0[q] == k {
                                let q = choose|q: int| 0 <= q < i && k0[q] == k;
                                if q == p {
                                }
                            }
                            if exists|q: int| 0 <= q < p && k0[q] == k {
                                let q = choose|q: int| 0 <= q < p && k0[q] == k;
                                assert(0 <= q < i && k0[q] == k);
                            }
                        }
                    }
                }
            } else {
                proof {
                    assert(kept_from(m0, k0, p as int) =~= before) by {
                        assert forall|k: Seq<char>| kept_from(m0, k0, p as int).contains_key(k) <==> before.contains_key(k) by {
                            if exists|q: int| 0 <= q < i && k0[q] == k {
                                let q = choose|q: int| 0 <= q < i && k0[q] == k;
                                if q == p {
                                    assert(!m0[k].finished);
                                } else {
                                    assert(0 <= q < p as int && k0[q] == k);
                                }
                            }
                            if exists|q: int| 0 <= q < p && k0[q] == k {
                                let q = choose|q: int| 0 <= q < p && k0[q] == k;
                                assert(0 <= q < i && k0[q] == k);
                            }
                        }
                    }
                }
            }
            i = p;
        }
        let ghost m1 = self@;
        proof {
            assert(m1.dom() =~= unfinished_ids(m0));
            self.law_size_bounded();
        }
        if self.keys.len() >= MAX_GAMES {
            let ghost mut removed: Set<Seq<char>> = Set::empty();
            let mut r: usize = 0;
            while r < MAX_GAMES / 2
                invariant
                    self.wf(),
                    r <= MAX_GAMES / 2,
                    m1.dom().finite(),
                    m1.dom().len() >= MAX_GAMES,
                    self.size() + r == m1.dom().len(),
                    removed.subset_of(m1.dom()),
                    self@.dom() == m1.dom().difference(removed),
                    forall|k: Seq<char>| #[trigger] self@.contains_key(k) ==> self@[k] == m1[k],
                    forall|x: Seq<char>, k: Seq<char>|
                        #![trigger removed.contains(x), self@.contains_key(k)]
                        removed.contains(x) && self@.contains_key(k) ==> m1[x].created_at
                            <= m1[k].created_at,
                    self.cards_dealt() == old(self).cards_dealt(),
                    self.winning_settlements() == old(self).winning_settlements(),
                    self.reward_paid() == old(self).reward_paid(),
                decreases MAX_GAMES / 2 - r,
            {
                let m = self.oldest();
                let ghost km = self.keys@[m as int]@;
                let ghost before = self@;
                proof {
                    lemma_table_get(key_views(self.keys@), game_views(self.games@), m as int);
                    assert forall|k: Seq<char>| before.contains_key(k) implies m1[km].created_at
                        <= m1[k].created_at by {
                        let j = choose|j: int| 0 <= j < self.keys@.len() && key_views(self.keys@)[j] == k;
                        lemma_table_get(key_views(self.keys@), game_views(self.games@), j);
                        assert(self.games@[m as int].created_at <= self.games@[j].created_at);
                    }
                }
                self.remove_at(m);
                proof {
                    removed = removed.insert(km);
                    assert(self@.dom() =~= m1.dom().difference(removed));
                }
                r = r + 1;
            }
            proof {
                self.law_size_bounded();
                assert forall|x: Seq<char>, k: Seq<char>|
                    #![trigger unfinished_ids(m0).contains(x), self@.contains_key(k)]
                    unfinished_ids(m0).contains(x) && !self@.contains_key(x) && self@.contains_key(k)
                        implies m0[x].created_at <= m0[k].created_at by {
                    assert(removed.contains(x));
                }
            }
        }
        proof {
            self.law_size_bounded();
            assert forall|k: Seq<char>| #[trigger] self@.contains_key(k) implies unfinished_ids(
                m0,
            ).contains(k) && self@[k] == m0[k] by {
                assert(m1.contains_key(k));
            }
            if old(self).size() >= MAX_GAMES {
                assert(self.size() < MAX_GAMES);
            }
        }
    }

    /// Puts a new page into the store under its id (replacing a page with
    /// the same id) and counts it as dealt. When the store is full it first
    /// makes room: it drops every settled page and, if still full, the
    /// oldest half of what is left.
    pub fn insert(&mut self, game: Game)
        requires
            old(self).wf(),
            old(self).cards_dealt() < u64::MAX,
        ensures
            final(self).wf(),
            final(self).size() <= MAX_GAMES,
            exists|mid: Map<Seq<char>, GameView>|
                made_room(old(self)@, old(self).size(), mid) && final(self)@ == mid.insert(game@.id, game@),
            final(self).cards_dealt() == old(self).cards_dealt() + 1,
            final(self).winning_settlements() == old(self).winning_settlements(),
            final(self).reward_paid() == old(self).reward_paid(),
    {
        if self.keys.len() >= MAX_GAMES {
            self.prune();
        }
        let ghost mid = self@;
        let ghost gv = game@;
        proof {
            self.law_size_bounded();
        }
        let key = game.id.clone();
        match self.find(&key) {
            Some(i) => {
                proof {
                    lemma_table_get(key_views(self.keys@), game_views(self.games@), i as int);
                    lemma_table_update(key_views(self.keys@), game_views(self.games@), i as int, game@);
                    assert(game_views(self.games@.update(i as int, game)) =~= game_views(self.games@).update(i as int, game@));
                }
                self.games.set(i, game);
            },
            None => {
                proof {
                    assert(!key_views(self.keys@).contains(key@));
                    lemma_table_push(key_views(self.keys@), game_views(self.games@), key@, game@);
                    assert(key_views(self.keys@.push(key)) =~= key_views(self.keys@).push(key@));
                    assert(game_views(self.games@.push(game)) =~= game_views(self.games@).push(game@));
                }
                self.keys.push(key);
                self.games.push(game);
            },
        }
        self.total_cards = self.total_cards + 1;
        assert(made_room(old(self)@, old(self).size(), mid) && self@ == mid.insert(gv.id, gv));
    }

    /// Counts a settlement: a winning one (reward above zero) adds one win
    /// and its reward to the totals; a losing one changes nothing.
    pub fn record_finish(&mut self, reward: u32)
        requires
            reward > 0 ==> old(self).winning_settlements() < u64::MAX,
            reward > 0 ==> old(self).reward_paid() + reward <= u64::MAX,
        ensures
            final(self)@ == old(self)@,
            final(self).wf() == old(self).wf(),
            final(self).size() == old(self).size(),
            final(self).cards_dealt() == old(self).cards_dealt(),
            final(self).winning_settlements() == old(self).winning_settlements() + if reward > 0 { 1int } else { 0int },
            final(self).reward_paid() == old(self).reward_paid() + reward,
    {
        if reward > 0 {
            self.total_wins = self.total_wins + 1;
            self.total_reward = self.total_reward + reward as u64;
        }
    }

    /// The page with id `card_id`, to be changed in place (scratched or
    /// settled); `None` when no page has that id. Whatever the caller does
    /// to the page is what the store then holds under that id.
    pub fn game_mut(&mut self, card_id: &str) -> (r: Option<&mut Game>)
        requires
            old(self).wf(),
        ensures
            final(self).wf(),
            final(self).size() == old(self).size(),
            final(self).cards_dealt() == old(self).cards_dealt(),
            final(self).winning_settlements() == old(self).winning_settlements(),
            final(self).reward_paid() == old(self).reward_paid(),
            match r {
                Some(g) => {
                    &&& old(self)@.contains_key(card_id@)
                    &&& old(self)@[card_id@] == g@
                    &&& final(self)@ == old(self)@.insert(card_id@, final(g)@)
                },
                None => {
                    &&& !old(self)@.contains_key(card_id@)
                    &&& final(self)@ == old(self)@
                },
            },
    {
        let key = String::from_str(card_id);
        match self.find(&key) {
            Some(i) => {
                proof {
                    lemma_table_get(key_views(self.keys@), game_views(self.games@), i as int);
                }
                let g = &mut self.games[i];
                Some(g)
            },
            None => None,
        }
    }
}

impl Default for GameStore {
    /// An empty store with all totals at zero.
    fn default() -> (s: GameStore)
        ensures
            s.wf(),
            s@ == Map::<Seq<char>, GameView>::empty(),
            s.cards_dealt() == 0,
            s.winning_settlements() == 0,
            s.reward_paid() == 0,
    {
        GameStore::new()
    }
}

/// Read after write: once a page is put into the store, looking up its id
/// finds that very page, whether or not room had to be made first.
pub proof fn law_insert_then_find(
    before: Map<Seq<char>, GameView>,
    before_size: nat,
    mid: Map<Seq<char>, GameView>,
    after: Map<Seq<char>, GameView>,
    game: GameView,
)
    requires
        made_room(before, before_size, mid),
        after == mid.insert(game.id, game),
    ensures
        after.contains_key(game.id),
        after[game.id] == game,
{
}

/// Putting a page into a store with room keeps every other page as it was.
pub proof fn law_insert_keeps_others(
    before: Map<Seq<char>, GameView>,
    before_size: nat,
    mid: Map<Seq<char>, GameView>,
    after: Map<Seq<char>, GameView>,
    game: GameView,
    k: Seq<char>,
)
    requires
        before_size < MAX_GAMES,
        made_room(before, before_size, mid),
        after == mid.insert(game.id, game),
        before.contains_key(k),
        k != game.id,
    ensures
        after.contains_key(k),
        after[k] == before[k],
{
}

/// Making room never keeps a settled page, never changes a kept page, and
/// keeps every unsettled page when fewer than `MAX_GAMES` are unsettled.
pub proof fn law_pruning_keeps_only_unsettled(
    before: Map<Seq<char>, GameView>,
    after: Map<Seq<char>, GameView>,
    k: Seq<char>,
)
    requires
        is_pruning(before, after),
    ensures
        after.contains_key(k) ==> before.contains_key(k) && !after[k].finished && after[k]
            == before[k],
        unfinished_ids(before).len() < MAX_GAMES && before.contains_key(k) && !before[k].finished
            ==> after.contains_key(k),
{
    if after.contains_key(k) {
        assert(unfinished_ids(before).contains(k));
    }
    if unfinished_ids(before).len() < MAX_GAMES && before.contains_key(k) && !before[k].finished {
        assert(unfinished_ids(before).contains(k));
    }
}

/// Making room twice in a row changes nothing the second time: after one
/// pruning of a store of at most `MAX_GAMES` pages, fewer than `MAX_GAMES`
/// pages remain and none is settled, so a second pruning keeps them all.
pub proof fn law_pruning_twice_is_pruning_once(
    before: Map<Seq<char>, GameView>,
    once: Map<Seq<char>, GameView>,
    twice: Map<Seq<char>, GameView>,
)
    requires
        before.dom().finite(),
        before.dom().len() <= MAX_GAMES,
        is_pruning(before, once),
        is_pruning(once, twice),
    ensures
        twice == once,
{
    let u = unfinished_ids(before);
    vstd::set_lib::lemma_len_subset(u, before.dom());
    assert(once.dom().subset_of(u)) by {
        assert forall|k: Seq<char>| once.dom().contains(k) implies u.contains(k) by {
            assert(once.contains_key(k));
        }
    }
    vstd::set_lib::lemma_len_subset(once.dom(), u);
    assert(unfinished_ids(once) =~= once.dom()) by {
        assert forall|k: Seq<char>| once.dom().contains(k) implies !once[k].finished by {
            assert(once.contains_key(k));
            assert(u.contains(k));
        }
    }
    assert(once.dom().len() < MAX_GAMES);
    assert(twice.dom() == once.dom());
    assert forall|k: Seq<char>| twice.contains_key(k) implies twice[k] == once[k] by {
        assert(twice.contains_key(k));
    }
    assert(twice =~= once);
}

/// Whether every page of `m` is stored under its own id.
pub open spec fn keyed_by_id(m: Map<Seq<char>, GameView>) -> bool {
    forall|k: Seq<char>| #[trigger] m.contains_key(k) ==> m[k].id == k
}

/// The store stays bounded and keyed: putting a page into a store of at
/// most `MAX_GAMES` pages, each under its own id, leaves at most `MAX_GAMES`
/// pages, each still under its own id, whether or not room had to be made.
pub proof fn law_insert_keeps_store_bounded_and_keyed(
    before: Map<Seq<char>, GameView>,
    mid: Map<Seq<char>, GameView>,
    after: Map<Seq<char>, GameView>,
    game: GameView,
)
    requires
        before.dom().finite(),
        before.dom().len() <= MAX_GAMES,
        keyed_by_id(before),
        made_room(before, before.dom().len(), mid),
        after == mid.insert(game.id, game),
    ensures
        after.dom().finite(),
        after.dom().len() <= MAX_GAMES,
        keyed_by_id(after),
{
    if before.dom().len() < MAX_GAMES {
        assert(mid == before);
    } else {
        let u = unfinished_ids(before);
        vstd::set_lib::lemma_len_subset(u, before.dom());
        assert(mid.dom().subset_of(u)) by {
            assert forall|k: Seq<char>| mid.dom().contains(k) implies u.contains(k) by {
                assert(mid.contains_key(k));
            }
        }
        vstd::set_lib::lemma_len_subset(mid.dom(), u);
        assert(mid.dom().len() < MAX_GAMES);
    }
    assert(after.dom() =~= mid.dom().insert(game.id));
    assert forall|k: Seq<char>| #[trigger] after.contains_key(k) implies after[k].id == k by {
        if k != game.id {
            assert(mid.contains_key(k));
            assert(before.contains_key(k));
        }
    }
}

} // verus!

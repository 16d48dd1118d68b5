//! Playing a page: dealing its cells, scratching them one at a time and
//! settling it.

use std::time::Instant;

use vstd::prelude::*;

use crate::config::{tiers_view, ConfigView, GameConfig, RewardTier, TierView};
use crate::fixed_point::{draw_below, threshold_of, UNITS_PER_ONE};
use crate::models::{
    Cell, CellHint, CellView, FinishResponse, FinishView, Game, GameError, GameView,
    NewCardResponse, RevealResponse, RevealView, MAX_PAGE_CELLS,
};
use crate::os::{nanos_since, new_card_id, random_unit, RandomSourceFailed};
use crate::text::{decimal, is_hex_lower_char, push_decimal};

verus! {

// ---------------------------------------------------------------------------
// Dealing a page
// ---------------------------------------------------------------------------

/// The tier that draw `rng` lands on, searching from tier `i` on: the first
/// tier `k` whose cumulative probability (the `f64` sum through `k`) the
/// draw is below.
pub open spec fn tier_from(tiers: Seq<TierView>, rng: nat, i: int) -> Option<nat>
    decreases tiers.len() - i,
{
    if i < 0 || i >= tiers.len() {
        None
    } else if draw_below(rng, tiers[i].cumulative) {
        Some(i as nat)
    } else {
        tier_from(tiers, rng, i + 1)
    }
}

/// The tier that draw `rng` lands on, or `None` for a losing draw.
pub open spec fn tier_for_draw(tiers: Seq<TierView>, rng: nat) -> Option<nat> {
    tier_from(tiers, rng, 0)
}

/// The cell at position `i` of a page dealt with draw `rng`: the amount and
/// symbol of the tier the draw lands on, or nothing and the losing label.
pub open spec fn dealt_cell(config: ConfigView, i: int, rng: nat) -> CellView {
    match tier_for_draw(config.rewards, rng) {
        Some(k) => CellView {
            id: i as u8,
            amount: config.rewards[k as int].value,
            label: config.rewards[k as int].symbol,
            revealed: false,
        },
        None => CellView { id: i as u8, amount: 0, label: config.lose_label, revealed: false },
    }
}

/// The cells of a page dealt with `draws`, one cell per draw.
pub open spec fn dealt_cells(config: ConfigView, draws: Seq<u64>) -> Seq<CellView> {
    Seq::new(draws.len(), |i: int| dealt_cell(config, i, draws[i] as nat))
}

/// How many cells a page gets when `requested` are asked for: the request
/// held within `1..=` the page size, itself held within `1..=5`.
pub open spec fn page_cell_count(page_size: u32, requested: usize) -> nat {
    let page = if page_size < 1 {
        1
    } else if page_size > MAX_PAGE_CELLS {
        MAX_PAGE_CELLS as nat
    } else {
        page_size as nat
    };
    if requested < 1 {
        1
    } else if requested > page {
        page
    } else {
        requested as nat
    }
}

/// Chooses the tier that a draw (standing for `rng / 2^53`) lands on, by
/// cumulative probability: going through the tiers in order, the first one
/// whose cumulative probability (the `f64` sum of the probabilities through
/// it) the draw is below; `None` when the draw is below none of them.
pub fn choose_tier(rng: u64, config: &GameConfig) -> (r: Option<&RewardTier>)
    ensures
        r is Some <==> tier_for_draw(config@.rewards, rng as nat) is Some,
        r matches Some(t) ==> t@ == config@.rewards[tier_for_draw(config@.rewards, rng as nat).unwrap() as int],
{
    let ghost tiers = config@.rewards;
    let mut i: usize = 0;
    while i < config.rewards.len()
        invariant
            i <= config.rewards@.len(),
            tiers == tiers_view(config.rewards@),
            tier_for_draw(tiers, rng as nat) == tier_from(tiers, rng as nat, i as int),
        decreases config.rewards@.len() - i,
    {
        let tier = &config.rewards[i];
        assert(tiers[i as int] == tier@);
        let t = threshold_of(tier.cumulative);
        assert((rng as u128) < t <==> draw_below(rng as nat, tier.cumulative));
        if (rng as u128) < t {
            return Some(tier);
        }
        i = i + 1;
    }
    None
}

/// Whether cell `i` of `g` is what some draw below 2^53 deals at that position.
pub open spec fn exists_draw_for(config: ConfigView, g: GameView, i: int) -> bool {
    exists|d: nat| d < UNITS_PER_ONE && g.cells[i] == #[trigger] dealt_cell(config, i, d)
}

/// Whether `g` is a freshly dealt page of rules `config` with draws that
/// could have come from `random_unit`: one cell per position, each dealt
/// from some draw below 2^53.
pub open spec fn freshly_dealt(config: ConfigView, g: GameView) -> bool {
    &&& !g.finished
    &&& forall|i: int| 0 <= i < g.cells.len() ==> #[trigger] exists_draw_for(config, g, i)
}

// ---------------------------------------------------------------------------
// Scratching a cell
// ---------------------------------------------------------------------------

/// The position of the first cell numbered `id`, if any.
pub open spec fn cell_position(cells: Seq<CellView>, id: u8) -> Option<nat>
    decreases cells.len(),
{
    if cells.len() == 0 {
        None
    } else if cells[0].id == id {
        Some(0)
    } else {
        match cell_position(cells.drop_first(), id) {
            Some(k) => Some(k + 1),
            None => None,
        }
    }
}

/// What scratching cell `cell_id` of page `g` answers.
pub open spec fn reveal_outcome(g: GameView, cell_id: u8) -> Result<RevealView, GameError> {
    if g.finished {
        Err(GameError::AlreadyFinished)
    } else {
        match cell_position(g.cells, cell_id) {
            None => Err(GameError::CellOutOfRange),
            Some(i) => {
                let c = g.cells[i as int];
                if c.revealed {
                    Err(GameError::AlreadyRevealed)
                } else {
                    Ok(RevealView { cell_id: c.id, amount: c.amount, label: c.label, win: c.amount > 0 })
                }
            },
        }
    }
}

/// The page after scratching cell `cell_id`: the scratched cell is marked
/// revealed; on a refusal the page is unchanged.
pub open spec fn after_reveal(g: GameView, cell_id: u8) -> GameView {
    match reveal_outcome(g, cell_id) {
        Ok(_) => {
            let i = cell_position(g.cells, cell_id).unwrap() as int;
            let c = g.cells[i];
            GameView {
                id: g.id,
                cells: g.cells.update(
                    i,
                    CellView { id: c.id, amount: c.amount, label: c.label, revealed: true },
                ),
                finished: g.finished,
                created_at: g.created_at,
            }
        },
        Err(_) => g,
    }
}

/// `cell_position` finds the first matching cell, and only that one.
proof fn lemma_cell_position(cells: Seq<CellView>, id: u8, i: int)
    requires
        0 <= i <= cells.len(),
        forall|j: int| 0 <= j < i ==> cells[j].id != id,
    ensures
        i < cells.len() && cells[i].id == id ==> cell_position(cells, id) == Some(i as nat),
        i == cells.len() ==> cell_position(cells, id) is None,
    decreases cells.len(),
{
    if cells.len() > 0 && i > 0 {
        assert(cells[0].id != id);
        let rest = cells.drop_first();
        assert forall|j: int| 0 <= j < i - 1 implies rest[j].id != id by {
            assert(rest[j] == cells[j + 1]);
        }
        lemma_cell_position(rest, id, i - 1);
    }
}

// ---------------------------------------------------------------------------
// Settling a page
// ---------------------------------------------------------------------------

/// The sum of the amounts of the revealed cells.
pub open spec fn revealed_total(cells: Seq<CellView>) -> nat
    decreases cells.len(),
{
    if cells.len() == 0 {
        0
    } else {
        revealed_total(cells.drop_last()) + if cells.last().revealed {
            cells.last().amount as nat
        } else {
            0
        }
    }
}

/// The sentence shown for a settled page that won `reward` in all.
pub open spec fn finish_message(reward: u32) -> Seq<char> {
    if reward > 0 {
        "本页共中奖 $"@ + decimal(reward as nat) + "！"@
    } else {
        "谢谢参与，再接再厉！"@
    }
}

/// What settling page `g` answers.
pub open spec fn finish_outcome(g: GameView) -> Result<FinishView, GameError> {
    if g.finished {
        Err(GameError::AlreadyFinished)
    } else {
        let reward = revealed_total(g.cells) as u32;
        Ok(FinishView { win: reward > 0, reward, message: finish_message(reward) })
    }
}

/// The page after settling it: marked finished, cells untouched.
pub open spec fn after_finish(g: GameView) -> GameView {
    GameView { id: g.id, cells: g.cells, finished: true, created_at: g.created_at }
}

/// The total over a prefix never exceeds the total over the whole.
proof fn lemma_revealed_total_prefix(cells: Seq<CellView>, i: int)
    requires
        0 <= i <= cells.len(),
    ensures
        revealed_total(cells.subrange(0, i)) <= revealed_total(cells),
    decreases cells.len() - i,
{
    if i < cells.len() {
        lemma_revealed_total_prefix(cells, i + 1);
        assert(cells.subrange(0, i + 1).drop_last() =~= cells.subrange(0, i));
    } else {
        assert(cells.subrange(0, i) =~= cells);
    }
}

impl Game {
    /// Deals a page of rules `config` with the given draws (each in units of
    /// 2^-53): one cell per draw, numbered from 0, unscratched, carrying the
    /// amount and symbol of the tier its draw lands on, or nothing and the
    /// losing label.
    pub fn deal(config: &GameConfig, draws: &[u64], id: String, created_at: u64) -> (g: Game)
        requires
            draws@.len() <= 256,
        ensures
            g@ == (GameView {
                id: id@,
                cells: dealt_cells(config@, draws@),
                finished: false,
                created_at,
            }),
    {
        let mut cells: Vec<Cell> = Vec::new();
        let mut i: usize = 0;
        while i < draws.len()
            invariant
                i <= draws@.len() <= 256,
                cells@.len() == i,
                forall|j: int| 0 <= j < i ==> #[trigger] cells@[j]@ == dealt_cell(config@, j, draws@[j] as nat),
            decreases draws@.len() - i,
        {
            let cell = match choose_tier(draws[i], config) {
                Some(tier) => Cell {
                    id: i as u8,
                    amount: tier.value,
                    label: tier.symbol.clone(),
                    revealed: false,
                },
                None => Cell {
                    id: i as u8,
                    amount: 0,
                    label: config.lose_label.clone(),
                    revealed: false,
                },
            };
            cells.push(cell);
            i = i + 1;
        }
        let g = Game { id, cells, finished: false, created_at };
        assert(g@.cells =~= dealt_cells(config@, draws@));
        g
    }

    /// Deals a new page of rules `config` with `requested` cells, held within
    /// `1..=` the page size (itself held within `1..=5`). Each cell's tier is
    /// drawn independently at random, so a page may hold several winning
    /// cells or none; the page gets a fresh random id of 32 lowercase
    /// hexadecimal characters and the time elapsed since `clock` on the
    /// monotonic clock. When the operating system's random source fails,
    /// that failure is passed on.
    pub fn create(config: &GameConfig, requested: usize, clock: &Instant) -> (r: Result<Game, RandomSourceFailed>)
        ensures
            r matches Ok(g) ==> g@.cells.len() == page_cell_count(config.page_size, requested),
            r matches Ok(g) ==> freshly_dealt(config@, g@),
            r matches Ok(g) ==> g@.id.len() == 32,
            r matches Ok(g) ==> forall|i: int| 0 <= i < g@.id.len() ==> is_hex_lower_char(#[trigger] g@.id[i]),
    {
        let page: usize = if config.page_size < 1 {
            1
        } else if config.page_size as usize > MAX_PAGE_CELLS {
            MAX_PAGE_CELLS
        } else {
            config.page_size as usize
        };
        let count: usize = if requested < 1 {
            1
        } else if requested > page {
            page
        } else {
            requested
        };
        let mut draws: Vec<u64> = Vec::new();
        while draws.len() < count
            invariant
                count <= MAX_PAGE_CELLS,
                draws@.len() <= count,
                forall|j: int| 0 <= j < draws@.len() ==> #[trigger] draws@[j] < UNITS_PER_ONE,
            decreases count - draws@.len(),
        {
            let d = match random_unit() {
                Ok(d) => d,
                Err(e) => return Err(e),
            };
            draws.push(d);
        }
        let id = match new_card_id() {
            Ok(id) => id,
            Err(e) => return Err(e),
        };
        let created_at = nanos_since(clock);
        let g = Game::deal(config, draws.as_slice(), id, created_at);
        assert forall|i: int| 0 <= i < g@.cells.len() implies #[trigger] exists_draw_for(config@, g@, i) by {
            let d = draws@[i] as nat;
            assert(d < UNITS_PER_ONE);
            assert(g@.cells[i] == dealt_cell(config@, i, d));
        }
        assert(freshly_dealt(config@, g@));
        Ok(g)
    }

    /// The answer to a freshly dealt page: its id and the numbers of its
    /// cells, never their amounts.
    pub fn to_new_card_response(&self) -> (r: NewCardResponse)
        ensures
            r.card_id@ == self.id@,
            r.cells@.len() == self.cells@.len(),
            forall|i: int| 0 <= i < r.cells@.len() ==> #[trigger] r.cells@[i].id == self.cells@[i].id,
    {
        let mut hints: Vec<CellHint> = Vec::new();
        let mut i: usize = 0;
        while i < self.cells.len()
            invariant
                i <= self.cells@.len(),
                hints@.len() == i,
                forall|j: int| 0 <= j < i ==> #[trigger] hints@[j].id == self.cells@[j].id,
            decreases self.cells@.len() - i,
        {
            hints.push(CellHint { id: self.cells[i].id });
            i = i + 1;
        }
        NewCardResponse { card_id: self.id.clone(), cells: hints }
    }

    /// Scratches cell `cell_id`: refused on a settled page, on a number that
    /// no cell has, and on a cell already scratched; otherwise the first cell
    /// with that number is marked revealed and its amount is told.
    pub fn reveal_cell(&mut self, cell_id: u8) -> (r: Result<RevealResponse, GameError>)
        ensures
            match r {
                Ok(resp) => reveal_outcome(old(self)@, cell_id) == Ok::<RevealView, GameError>(resp@),
                Err(e) => reveal_outcome(old(self)@, cell_id) == Err::<RevealView, GameError>(e),
            },
            final(self)@ == after_reveal(old(self)@, cell_id),
    {
        if self.finished {
            return Err(GameError::AlreadyFinished);
        }
        let ghost cells = self@.cells;
        let mut i: usize = 0;
        while i < self.cells.len()
            invariant
                i <= self.cells@.len(),
                cells == cells_view_of(self),
                forall|j: int| 0 <= j < i ==> cells[j].id != cell_id,
            ensures
                i <= self.cells@.len(),
                cells == cells_view_of(self),
                forall|j: int| 0 <= j < i ==> cells[j].id != cell_id,
                i < self.cells@.len() ==> cells[i as int].id == cell_id,
            decreases self.cells@.len() - i,
        {
            if self.cells[i].id == cell_id {
                break;
            }
            i = i + 1;
        }
        proof {
            lemma_cell_position(cells, cell_id, i as int);
        }
        if i == self.cells.len() {
            return Err(GameError::CellOutOfRange);
        }
        assert(cells[i as int] == self.cells@[i as int]@);
        if self.cells[i].revealed {
            return Err(GameError::AlreadyRevealed);
        }
        self.cells[i].revealed = true;
        let amount = self.cells[i].amount;
        let resp = RevealResponse {
            cell_id: self.cells[i].id,
            amount,
            label: self.cells[i].label.clone(),
            win: amount > 0,
        };
        assert forall|j: int| 0 <= j < cells.len() implies #[trigger] self@.cells[j] == after_reveal(
            old(self)@,
            cell_id,
        ).cells[j] by {
            assert(self@.cells[j] == self.cells@[j]@);
        }
        assert(self@.cells =~= after_reveal(old(self)@, cell_id).cells);
        Ok(resp)
    }

    /// The sum of the amounts of the revealed cells, when it fits a `u32`.
    pub fn revealed_reward(&self) -> (r: Option<u32>)
        ensures
            r == (if revealed_total(self@.cells) <= u32::MAX {
                Some(revealed_total(self@.cells) as u32)
            } else {
                None::<u32>
            }),
    {
        let ghost cells = self@.cells;
        let mut total: u64 = 0;
        let mut i: usize = 0;
        while i < self.cells.len()
            invariant
                i <= self.cells@.len(),
                cells == cells_view_of(self),
                total == revealed_total(cells.subrange(0, i as int)),
                total <= u32::MAX,
            decreases self.cells@.len() - i,
        {
            assert(cells.subrange(0, i + 1).drop_last() =~= cells.subrange(0, i as int));
            if self.cells[i].revealed {
                total = total + self.cells[i].amount as u64;
            }
            if total > u32::MAX as u64 {
                proof {
                    lemma_revealed_total_prefix(cells, i + 1);
                }
                return None;
            }
            i = i + 1;
        }
        assert(cells.subrange(0, i as int) =~= cells);
        Some(total as u32)
    }

    /// Settles the page, once: adds up the amounts of the revealed cells
    /// (unrevealed cells do not count) and marks the page finished.
    pub fn finish(&mut self) -> (r: Result<FinishResponse, GameError>)
        requires
            !old(self).finished ==> revealed_total(old(self)@.cells) <= u32::MAX,
        ensures
            match r {
                Ok(resp) => finish_outcome(old(self)@) == Ok::<FinishView, GameError>(resp@),
                Err(e) => finish_outcome(old(self)@) == Err::<FinishView, GameError>(e),
            },
            final(self)@ == after_finish(old(self)@),
    {
        if self.finished {
            return Err(GameError::AlreadyFinished);
        }
        self.finished = true;
        let ghost cells = self@.cells;
        let mut reward: u32 = 0;
        let mut i: usize = 0;
        while i < self.cells.len()
            invariant
                i <= self.cells@.len(),
                cells == cells_view_of(self),
                revealed_total(cells) <= u32::MAX,
                reward == revealed_total(cells.subrange(0, i as int)),
            decreases self.cells@.len() - i,
        {
            proof {
                lemma_revealed_total_prefix(cells, i + 1);
                assert(cells.subrange(0, i + 1).drop_last() =~= cells.subrange(0, i as int));
            }
            if self.cells[i].revealed {
                reward = reward + self.cells[i].amount;
            }
            i = i + 1;
        }
        assert(cells.subrange(0, i as int) =~= cells);
        let win = reward > 0;
        let message = if win {
            let mut m = String::from_str("本页共中奖 $");
            push_decimal(&mut m, reward);
            m.append("！");
            m
        } else {
            String::from_str("谢谢参与，再接再厉！")
        };
        Ok(FinishResponse { win, reward, message })
    }
}

/// The cell views of a page.
pub open spec fn cells_view_of(g: &Game) -> Seq<CellView> {
    g@.cells
}

// ---------------------------------------------------------------------------
// Laws of a page
// ---------------------------------------------------------------------------

/// The sum of the amounts of all cells, scratched or not.
pub open spec fn amounts_total(cells: Seq<CellView>) -> nat
    decreases cells.len(),
{
    if cells.len() == 0 {
        0
    } else {
        amounts_total(cells.drop_last()) + cells.last().amount as nat
    }
}

/// Whether draw `rng` lands on tier `k` when the search starts at tier `i`:
/// the draw is below the cumulative probability through `k` and below none
/// through the tiers from `i` before `k`.
pub open spec fn first_below(tiers: Seq<TierView>, rng: nat, i: int, k: int) -> bool {
    &&& i <= k < tiers.len()
    &&& draw_below(rng, tiers[k].cumulative)
    &&& forall|j: int| i <= j < k ==> !draw_below(rng, #[trigger] tiers[j].cumulative)
}

/// Whether draw `rng` is below none of the cumulative probabilities from
/// tier `i` on.
pub open spec fn below_none(tiers: Seq<TierView>, rng: nat, i: int) -> bool {
    forall|j: int| i <= j < tiers.len() ==> !draw_below(rng, #[trigger] tiers[j].cumulative)
}

proof fn lemma_tier_from_first(tiers: Seq<TierView>, rng: nat, i: int)
    requires
        0 <= i <= tiers.len(),
    ensures
        forall|k: nat| tier_from(tiers, rng, i) == Some(k) <==> #[trigger] first_below(tiers, rng, i, k as int),
        tier_from(tiers, rng, i) is None <==> below_none(tiers, rng, i),
    decreases tiers.len() - i,
{
    if i < tiers.len() {
        lemma_tier_from_first(tiers, rng, i + 1);
        assert forall|k: nat| tier_from(tiers, rng, i) == Some(k) <==> #[trigger] first_below(tiers, rng, i, k as int) by {
            if !draw_below(rng, tiers[i].cumulative) && first_below(tiers, rng, i, k as int) {
                assert(first_below(tiers, rng, i + 1, k as int));
            }
            if !draw_below(rng, tiers[i].cumulative) && first_below(tiers, rng, i + 1, k as int) {
                assert forall|j: int| i <= j < k implies !draw_below(rng, #[trigger] tiers[j].cumulative) by {
                    if j > i {
                        assert(i + 1 <= j < k);
                    }
                }
            }
        }
        if !draw_below(rng, tiers[i].cumulative) && below_none(tiers, rng, i + 1) {
            assert forall|j: int| i <= j < tiers.len() implies !draw_below(rng, #[trigger] tiers[j].cumulative) by {
                if j > i {
                    assert(i + 1 <= j < tiers.len());
                }
            }
        }
    }
}

/// Drawing a tier by cumulative probability, as the `f64` comparison of a
/// draw with the running `f64` sums decides it: a draw lands on tier `k`
/// exactly when it is below the cumulative probability through `k` and
/// below none through an earlier tier; it lands on no tier exactly when it
/// is below none of them.
pub proof fn law_tier_interval(tiers: Seq<TierView>, rng: nat)
    ensures
        forall|k: nat| tier_for_draw(tiers, rng) == Some(k) <==> #[trigger] first_below(tiers, rng, 0, k as int),
        tier_for_draw(tiers, rng) is None <==> below_none(tiers, rng, 0),
{
    lemma_tier_from_first(tiers, rng, 0);
}

/// Whether `t` is where the draws stop being below the number `bits`
/// encodes: a draw (below 2^53) is below it exactly when the draw is below
/// `t`.
pub open spec fn cuts_at(bits: u64, t: int) -> bool {
    &&& 0 <= t <= UNITS_PER_ONE
    &&& forall|rng: nat| rng < UNITS_PER_ONE ==> (rng < t <==> #[trigger] draw_below(rng, bits))
}

/// The largest of the first `k` cuts (0 when there are none).
pub open spec fn max_cut(cuts: Seq<int>, k: int) -> int
    decreases k,
{
    if k <= 0 {
        0
    } else if max_cut(cuts, k - 1) >= cuts[k - 1] {
        max_cut(cuts, k - 1)
    } else {
        cuts[k - 1]
    }
}

/// The draws (whole numbers below 2^53) that land on tier `k`.
pub open spec fn draws_on_tier(tiers: Seq<TierView>, k: nat) -> Set<int> {
    Set::new(|r: int| 0 <= r < UNITS_PER_ONE && tier_for_draw(tiers, r as nat) == Some(k))
}

/// The draws (whole numbers below 2^53) that land on no tier.
pub open spec fn losing_draws(tiers: Seq<TierView>) -> Set<int> {
    Set::new(|r: int| 0 <= r < UNITS_PER_ONE && tier_for_draw(tiers, r as nat) is None)
}

/// A draw is at least every one of the first `k` cuts exactly when it is
/// at least their largest.
proof fn lemma_max_cut(cuts: Seq<int>, k: int, r: int)
    requires
        0 <= k <= cuts.len(),
    ensures
        max_cut(cuts, k) >= 0,
        (forall|j: int| 0 <= j < k ==> #[trigger] cuts[j] <= r) && 0 <= r <==> max_cut(cuts, k) <= r,
    decreases k,
{
    if k > 0 {
        lemma_max_cut(cuts, k - 1, r);
        if max_cut(cuts, k) <= r {
            assert forall|j: int| 0 <= j < k implies #[trigger] cuts[j] <= r by {
                if j < k - 1 {
                    assert(max_cut(cuts, k - 1) <= r);
                }
            }
        }
    }
}

/// A draw is below none of the first `k` cumulative probabilities exactly
/// when it is at least each of their cuts.
proof fn lemma_below_none_past_cuts(tiers: Seq<TierView>, cuts: Seq<int>, r: int, k: int)
    requires
        cuts.len() == tiers.len(),
        forall|j: int| 0 <= j < tiers.len() ==> cuts_at(tiers[j].cumulative, #[trigger] cuts[j]),
        0 <= r < UNITS_PER_ONE,
        0 <= k <= tiers.len(),
    ensures
        (forall|j: int| 0 <= j < k ==> !draw_below(r as nat, #[trigger] tiers[j].cumulative)) <==> (forall|j: int|
            0 <= j < k ==> #[trigger] cuts[j] <= r),
{
    if forall|j: int| 0 <= j < k ==> !draw_below(r as nat, #[trigger] tiers[j].cumulative) {
        assert forall|j: int| 0 <= j < k implies #[trigger] cuts[j] <= r by {
            assert(!draw_below(r as nat, tiers[j].cumulative));
            assert(cuts_at(tiers[j].cumulative, cuts[j]));
        }
    }
    if forall|j: int| 0 <= j < k ==> #[trigger] cuts[j] <= r {
        assert forall|j: int| 0 <= j < k implies !draw_below(r as nat, #[trigger] tiers[j].cumulative) by {
            assert(cuts[j] <= r);
            assert(cuts_at(tiers[j].cumulative, cuts[j]));
        }
    }
}

/// The odds of each tier: drawing uniformly among the 2^53 draws, tier `k`
/// comes up for exactly the draws from the largest cut of the tiers before
/// it up to its own cut, so its odds are that many in 2^53 (none when its
/// cut is not above the earlier ones); no tier comes up for exactly the
/// draws from the largest cut on. With each cut being the cumulative
/// probability through its tier times 2^53 rounded up, a tier's odds are
/// its probability up to that rounding.
pub proof fn law_tier_odds(tiers: Seq<TierView>, cuts: Seq<int>, k: nat)
    requires
        cuts.len() == tiers.len(),
        forall|j: int| 0 <= j < tiers.len() ==> cuts_at(tiers[j].cumulative, #[trigger] cuts[j]),
        k < tiers.len(),
    ensures
        draws_on_tier(tiers, k).finite(),
        draws_on_tier(tiers, k).len() == if cuts[k as int] > max_cut(cuts, k as int) {
            cuts[k as int] - max_cut(cuts, k as int)
        } else {
            0
        },
        losing_draws(tiers).finite(),
        losing_draws(tiers).len() == UNITS_PER_ONE - max_cut(cuts, tiers.len() as int),
{
    let lo = max_cut(cuts, k as int);
    let hi = cuts[k as int];
    lemma_max_cut(cuts, k as int, 0);
    assert forall|r: int| #[trigger] draws_on_tier(tiers, k).contains(r) <==> lo <= r < hi by {
        if 0 <= r < UNITS_PER_ONE {
            law_tier_interval(tiers, r as nat);
            lemma_max_cut(cuts, k as int, r);
            assert(cuts_at(tiers[k as int].cumulative, cuts[k as int]));
            assert((r as nat) < hi <==> draw_below(r as nat, tiers[k as int].cumulative));
            lemma_below_none_past_cuts(tiers, cuts, r, k as int);
            assert(tier_for_draw(tiers, r as nat) == Some(k) <==> first_below(tiers, r as nat, 0, k as int));
        } else {
            assert(cuts_at(tiers[k as int].cumulative, cuts[k as int]));
        }
    }
    if lo < hi {
        vstd::set_lib::lemma_int_range(lo, hi);
        assert(draws_on_tier(tiers, k) =~= vstd::set_lib::set_int_range(lo, hi));
    } else {
        assert(draws_on_tier(tiers, k) =~= Set::<int>::empty());
    }
    let n = tiers.len() as int;
    let top = max_cut(cuts, n);
    lemma_max_cut(cuts, n, 0);
    assert(top <= UNITS_PER_ONE) by {
        lemma_max_cut(cuts, n, UNITS_PER_ONE as int);
        assert forall|j: int| 0 <= j < n implies #[trigger] cuts[j] <= UNITS_PER_ONE by {
            assert(cuts_at(tiers[j].cumulative, cuts[j]));
        }
    }
    assert forall|r: int| #[trigger] losing_draws(tiers).contains(r) <==> top <= r < UNITS_PER_ONE by {
        if 0 <= r < UNITS_PER_ONE {
            law_tier_interval(tiers, r as nat);
            lemma_max_cut(cuts, n, r);
            lemma_below_none_past_cuts(tiers, cuts, r, n);
        }
    }
    vstd::set_lib::lemma_int_range(top, UNITS_PER_ONE as int);
    assert(losing_draws(tiers) =~= vstd::set_lib::set_int_range(top, UNITS_PER_ONE as int));
}

/// A page never has fewer than one cell nor more than `MAX_PAGE_CELLS`,
/// whatever the page size in the rules and whatever the request asks for;
/// a request within those bounds and within the page size gets exactly the
/// cells it asks for.
pub proof fn law_page_size_bounded(page_size: u32, requested: usize)
    ensures
        1 <= page_cell_count(page_size, requested) <= MAX_PAGE_CELLS,
        1 <= requested <= page_size <= MAX_PAGE_CELLS ==> page_cell_count(page_size, requested)
            == requested,
{
}

/// A freshly dealt page: its cells are numbered 0, 1, ... in order, none is
/// scratched, and each carries either nothing and the losing label or the
/// amount and symbol of one of the tiers.
pub proof fn law_fresh_page_cells(config: ConfigView, g: GameView)
    requires
        freshly_dealt(config, g),
        g.cells.len() <= 256,
    ensures
        !g.finished,
        forall|i: int|
            0 <= i < g.cells.len() ==> {
                &&& (#[trigger] g.cells[i]).id == i
                &&& !g.cells[i].revealed
                &&& (g.cells[i].amount == 0 && g.cells[i].label == config.lose_label) || exists|k: int|
                    0 <= k < config.rewards.len() && g.cells[i].amount == config.rewards[k].value
                        && g.cells[i].label == config.rewards[k].symbol
            },
{
    assert forall|i: int| 0 <= i < g.cells.len() implies {
        &&& (#[trigger] g.cells[i]).id == i
        &&& !g.cells[i].revealed
        &&& (g.cells[i].amount == 0 && g.cells[i].label == config.lose_label) || exists|k: int|
            0 <= k < config.rewards.len() && g.cells[i].amount == config.rewards[k].value
                && g.cells[i].label == config.rewards[k].symbol
    } by {
        assert(exists_draw_for(config, g, i));
        let d = choose|d: nat| d < UNITS_PER_ONE && g.cells[i] == #[trigger] dealt_cell(config, i, d);
        match tier_for_draw(config.rewards, d) {
            Some(k) => {
                lemma_tier_for_draw_in_range(config.rewards, d);
                assert(0 <= k < config.rewards.len());
            },
            None => {},
        }
    }
}

proof fn lemma_tier_from_in_range(tiers: Seq<TierView>, rng: nat, i: int)
    ensures
        tier_from(tiers, rng, i) matches Some(k) ==> k < tiers.len(),
    decreases tiers.len() - i,
{
    if 0 <= i < tiers.len() && !draw_below(rng, tiers[i].cumulative) {
        lemma_tier_from_in_range(tiers, rng, i + 1);
    }
}

proof fn lemma_tier_for_draw_in_range(tiers: Seq<TierView>, rng: nat)
    ensures
        tier_for_draw(tiers, rng) matches Some(k) ==> k < tiers.len(),
{
    lemma_tier_from_in_range(tiers, rng, 0);
}

/// A cell can be scratched only once: once scratching cell `cell_id`
/// succeeds, scratching it again is refused as already revealed.
pub proof fn law_reveal_only_once(g: GameView, cell_id: u8)
    requires
        reveal_outcome(g, cell_id) is Ok,
    ensures
        reveal_outcome(after_reveal(g, cell_id), cell_id) == Err::<RevealView, GameError>(
            GameError::AlreadyRevealed,
        ),
{
    let i = cell_position(g.cells, cell_id).unwrap() as int;
    let after = after_reveal(g, cell_id);
    lemma_position_is_first(g.cells, cell_id);
    lemma_cell_position(after.cells, cell_id, i);
}

/// What `cell_position` finds is the first cell with that number.
proof fn lemma_position_is_first(cells: Seq<CellView>, id: u8)
    ensures
        cell_position(cells, id) matches Some(i) ==> (i < cells.len() && cells[i as int].id == id
            && forall|j: int| 0 <= j < i ==> cells[j].id != id),
    decreases cells.len(),
{
    if cells.len() > 0 && cells[0].id != id {
        lemma_position_is_first(cells.drop_first(), id);
        if let Some(k) = cell_position(cells.drop_first(), id) {
            assert forall|j: int| 0 <= j < k + 1 implies cells[j].id != id by {
                if j > 0 {
                    assert(cells[j] == cells.drop_first()[j - 1]);
                }
            }
        }
    }
}

/// Scratching only uncovers: every cell keeps its number, amount and text,
/// so what a page wins is fixed when it is dealt; and a successful scratch
/// answers exactly the amount and text of the scratched cell, with `win`
/// telling whether the amount is above zero.
pub proof fn law_reveal_uncovers_only(g: GameView, cell_id: u8)
    ensures
        after_reveal(g, cell_id).cells.len() == g.cells.len(),
        after_reveal(g, cell_id).finished == g.finished,
        forall|j: int|
            0 <= j < g.cells.len() ==> {
                &&& (#[trigger] after_reveal(g, cell_id).cells[j]).id == g.cells[j].id
                &&& after_reveal(g, cell_id).cells[j].amount == g.cells[j].amount
                &&& after_reveal(g, cell_id).cells[j].label == g.cells[j].label
            },
        reveal_outcome(g, cell_id) matches Ok(r) ==> {
            let i = cell_position(g.cells, cell_id).unwrap() as int;
            &&& r.cell_id == cell_id
            &&& r.amount == g.cells[i].amount
            &&& r.label == g.cells[i].label
            &&& r.win == (r.amount > 0)
        },
{
    lemma_position_is_first(g.cells, cell_id);
}

/// A page is settled once: after a successful settlement, settling again
/// and scratching any cell are both refused as already finished.
pub proof fn law_finish_only_once(g: GameView, cell_id: u8)
    requires
        finish_outcome(g) is Ok,
    ensures
        finish_outcome(after_finish(g)) == Err::<FinishView, GameError>(GameError::AlreadyFinished),
        reveal_outcome(after_finish(g), cell_id) == Err::<RevealView, GameError>(
            GameError::AlreadyFinished,
        ),
{
}

/// A refused scratch or settlement leaves the page as it was.
pub proof fn law_refusal_changes_nothing(g: GameView, cell_id: u8)
    ensures
        reveal_outcome(g, cell_id) is Err ==> after_reveal(g, cell_id) == g,
        finish_outcome(g) is Err ==> g.finished,
{
}

/// Only scratched cells count when a page is settled: with nothing
/// scratched the reward is zero and the page does not win; with every cell
/// scratched the reward is the sum of all the cells' amounts. In every case
/// the page wins exactly when its reward is above zero.
pub proof fn law_finish_counts_revealed_only(g: GameView)
    requires
        !g.finished,
        revealed_total(g.cells) <= u32::MAX,
    ensures
        finish_outcome(g) matches Ok(f) ==> f.reward == revealed_total(g.cells) && f.win == (f.reward
            > 0),
        (forall|i: int| 0 <= i < g.cells.len() ==> !(#[trigger] g.cells[i]).revealed) ==> (
        finish_outcome(g) matches Ok(f) && f.reward == 0 && !f.win),
        (forall|i: int| 0 <= i < g.cells.len() ==> (#[trigger] g.cells[i]).revealed) ==> (
        finish_outcome(g) matches Ok(f) && f.reward == amounts_total(g.cells)),
{
    lemma_revealed_total_extremes(g.cells);
}

/// The payout adds up cell by cell: nothing for no cells, a lone cell's
/// amount when it is scratched and nothing when it is not, and for a page
/// split anywhere into a front and a back, the payout of the front plus
/// that of the back.
pub proof fn law_revealed_total_adds_up(front: Seq<CellView>, back: Seq<CellView>, cell: CellView)
    ensures
        revealed_total(Seq::<CellView>::empty()) == 0,
        revealed_total(seq![cell]) == if cell.revealed {
            cell.amount as nat
        } else {
            0
        },
        revealed_total(front + back) == revealed_total(front) + revealed_total(back),
    decreases back.len(),
{
    assert(seq![cell].drop_last() =~= Seq::<CellView>::empty());
    if back.len() == 0 {
        assert(front + back =~= front);
    } else {
        law_revealed_total_adds_up(front, back.drop_last(), cell);
        assert((front + back).drop_last() =~= front + back.drop_last());
        assert((front + back).last() == back.last());
    }
}

/// Scratching a cell that was not scratched raises the payout by exactly
/// that cell's amount, whatever the other cells hold.
pub proof fn law_scratching_adds_its_amount(cells: Seq<CellView>, i: int)
    requires
        0 <= i < cells.len(),
        !cells[i].revealed,
    ensures
        revealed_total(cells.update(i, CellView { revealed: true, ..cells[i] })) == revealed_total(cells)
            + cells[i].amount,
{
    let scratched = CellView { revealed: true, ..cells[i] };
    let front = cells.subrange(0, i);
    let back = cells.subrange(i + 1, cells.len() as int);
    assert(cells =~= front + seq![cells[i]] + back);
    assert(cells.update(i, scratched) =~= front + seq![scratched] + back);
    law_revealed_total_adds_up(front, seq![cells[i]], cells[i]);
    law_revealed_total_adds_up(front + seq![cells[i]], back, cells[i]);
    law_revealed_total_adds_up(front, seq![scratched], scratched);
    law_revealed_total_adds_up(front + seq![scratched], back, scratched);
}

/// Scratching more never lowers the payout: of two pages whose cells carry
/// the same amounts, the one with every scratched cell of the other (and
/// maybe more) scratched has at least as high a revealed total.
pub proof fn law_more_scratched_pays_no_less(c1: Seq<CellView>, c2: Seq<CellView>)
    requires
        c1.len() == c2.len(),
        forall|i: int| 0 <= i < c1.len() ==> (#[trigger] c1[i]).amount == c2[i].amount,
        forall|i: int| 0 <= i < c1.len() ==> (#[trigger] c1[i]).revealed ==> c2[i].revealed,
    ensures
        revealed_total(c1) <= revealed_total(c2),
    decreases c1.len(),
{
    if c1.len() > 0 {
        let r1 = c1.drop_last();
        let r2 = c2.drop_last();
        assert forall|i: int| 0 <= i < r1.len() implies (#[trigger] r1[i]).amount == r2[i].amount && (
        r1[i].revealed ==> r2[i].revealed) by {
            assert(r1[i] == c1[i] && r2[i] == c2[i]);
        }
        law_more_scratched_pays_no_less(r1, r2);
        assert(c1.last() == c1[c1.len() - 1]);
    }
}

proof fn lemma_revealed_total_extremes(cells: Seq<CellView>)
    ensures
        (forall|i: int| 0 <= i < cells.len() ==> !(#[trigger] cells[i]).revealed) ==> revealed_total(
            cells,
        ) == 0,
        (forall|i: int| 0 <= i < cells.len() ==> (#[trigger] cells[i]).revealed) ==> revealed_total(
            cells,
        ) == amounts_total(cells),
    decreases cells.len(),
{
    if cells.len() > 0 {
        let rest = cells.drop_last();
        lemma_revealed_total_extremes(rest);
        if forall|i: int| 0 <= i < cells.len() ==> !(#[trigger] cells[i]).revealed {
            assert forall|i: int| 0 <= i < rest.len() implies !(#[trigger] rest[i]).revealed by {
                assert(rest[i] == cells[i]);
            }
        }
        if forall|i: int| 0 <= i < cells.len() ==> (#[trigger] cells[i]).revealed {
            assert forall|i: int| 0 <= i < rest.len() implies (#[trigger] rest[i]).revealed by {
                assert(rest[i] == cells[i]);
            }
        }
    }
}

} // verus!

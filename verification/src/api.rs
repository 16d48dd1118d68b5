//! What the HTTP endpoints decide: the public part of the rules, dealing a
//! page into the store, scratching a cell and settling a page, and how each
//! refusal is answered (status, error code, message). Receiving requests,
//! locking the store and writing JSON happen around the library.

use vstd::prelude::*;

use crate::config::GameConfig;
use crate::game::{after_finish, after_reveal, finish_outcome, reveal_outcome, revealed_total};
use crate::models::{
    FinishRequest, FinishResponse, Game, GameError, GameView, NewCardResponse, RevealRequest,
    RevealResponse, MAX_PAGE_CELLS,
};
use crate::os::RandomSourceFailed;
use crate::state::{made_room, GameStore};

verus! {

/// An error answer: HTTP status, a machine-readable code and a message for
/// the player.
#[derive(Debug)]
pub struct ApiError {
    pub status: u16,
    pub code: &'static str,
    pub message: String,
}

/// The mathematical value of an error answer.
pub struct ApiErrorView {
    pub status: u16,
    pub code: Seq<char>,
    pub message: Seq<char>,
}

impl View for ApiError {
    type V = ApiErrorView;

    open spec fn view(&self) -> ApiErrorView {
        ApiErrorView { status: self.status, code: self.code@, message: self.message@ }
    }
}

/// How a refusal of the game is answered.
pub open spec fn game_error_answer(e: GameError) -> ApiErrorView {
    match e {
        GameError::CardNotFound => ApiErrorView {
            status: 404,
            code: "card_not_found"@,
            message: "刮刮卡不存在或已过期"@,
        },
        GameError::CellOutOfRange => ApiErrorView {
            status: 400,
            code: "invalid_cell"@,
            message: "格子编号无效"@,
        },
        GameError::AlreadyRevealed => ApiErrorView {
            status: 409,
            code: "already_revealed"@,
            message: "该格子已经刮开"@,
        },
        GameError::AlreadyFinished => ApiErrorView {
            status: 409,
            code: "already_finished"@,
            message: "该刮刮卡已结算，不能重复领取"@,
        },
    }
}

/// The answer to a request that names no page.
pub open spec fn empty_card_id_answer() -> ApiErrorView {
    ApiErrorView { status: 400, code: "invalid_request"@, message: "card_id 不能为空"@ }
}

/// The answer to a failure of the server itself.
pub open spec fn internal_answer() -> ApiErrorView {
    ApiErrorView { status: 500, code: "internal_error"@, message: "服务器内部错误"@ }
}

/// The answer to a client that called too often.
pub open spec fn rate_limited_answer() -> ApiErrorView {
    ApiErrorView { status: 429, code: "rate_limited"@, message: "操作过于频繁，请稍后再试"@ }
}

impl ApiError {
    /// A client that called too often within its window: 429.
    pub fn rate_limited() -> (e: ApiError)
        ensures
            e@ == rate_limited_answer(),
    {
        ApiError {
            status: 429,
            code: "rate_limited",
            message: String::from_str("操作过于频繁，请稍后再试"),
        }
    }

    /// A failure of the server itself: 500.
    pub fn internal() -> (e: ApiError)
        ensures
            e@ == internal_answer(),
    {
        ApiError {
            status: 500,
            code: "internal_error",
            message: String::from_str("服务器内部错误"),
        }
    }

    /// A malformed request, with the given explanation: 400.
    pub fn bad_request_str(message: &str) -> (e: ApiError)
        ensures
            e@ == (ApiErrorView { status: 400, code: "invalid_request"@, message: message@ }),
    {
        ApiError { status: 400, code: "invalid_request", message: String::from_str(message) }
    }

    /// The answer to a refusal of the game: an unknown page is 404, a bad
    /// cell number 400, a cell or page already used 409.
    pub fn from_game_error(err: GameError) -> (e: ApiError)
        ensures
            e@ == game_error_answer(err),
    {
        match err {
            GameError::CardNotFound => ApiError {
                status: 404,
                code: "card_not_found",
                message: String::from_str("刮刮卡不存在或已过期"),
            },
            GameError::CellOutOfRange => ApiError {
                status: 400,
                code: "invalid_cell",
                message: String::from_str("格子编号无效"),
            },
            GameError::AlreadyRevealed => ApiError {
                status: 409,
                code: "already_revealed",
                message: String::from_str("该格子已经刮开"),
            },
            GameError::AlreadyFinished => ApiError {
                status: 409,
                code: "already_finished",
                message: String::from_str("该刮刮卡已结算，不能重复领取"),
            },
        }
    }
}

/// The part of the rules the front end may see: page size, greatest count,
/// daily limit, scratch threshold (bit pattern) and the losing label; never
/// the tiers or their probabilities.
#[derive(Debug, Clone)]
pub struct PublicConfig {
    pub page_size: u32,
    pub max_count: u32,
    pub daily_limit: u32,
    pub reveal_threshold: u64,
    pub lose_label: String,
}

/// The public part of the rules.
pub fn get_config(config: &GameConfig) -> (p: PublicConfig)
    ensures
        p.page_size == config.page_size,
        p.max_count == config.max_count,
        p.daily_limit == config.daily_limit,
        p.reveal_threshold == config.reveal_threshold,
        p.lose_label@ == config.lose_label@,
{
    PublicConfig {
        page_size: config.page_size,
        max_count: config.max_count,
        daily_limit: config.daily_limit,
        reveal_threshold: config.reveal_threshold,
        lose_label: config.lose_label.clone(),
    }
}

/// How many cells are asked for by a new-page request: the count it gives,
/// or a full page when it gives none (or could not be read).
pub open spec fn requested_cells(count: Option<u32>) -> nat {
    match count {
        Some(n) => n as nat,
        None => MAX_PAGE_CELLS as nat,
    }
}

/// Why no new page was dealt: the server refused (its count of dealt pages
/// cannot grow any more), or the operating system's random source failed.
#[derive(Debug)]
pub enum NewGameError {
    Refused(ApiError),
    RandomSource(RandomSourceFailed),
}

/// Deals a new page of `count` cells (a full page when `None`) and puts it
/// into the store, counting it as dealt; answers its id and cell numbers.
/// When the count of dealt pages cannot grow any more, the server fails
/// instead; when the random source fails, that failure is passed on. Either
/// way nothing changes then.
pub fn new_game(store: &mut GameStore, config: &GameConfig, count: Option<u32>) -> (r: Result<
    NewCardResponse,
    NewGameError,
>)
    requires
        old(store).wf(),
    ensures
        final(store).wf(),
        (r matches Err(NewGameError::Refused(_))) <==> old(store).cards_dealt() == u64::MAX,
        r matches Err(NewGameError::Refused(e)) ==> e@ == internal_answer(),
        match r {
            Ok(resp) => {
                &&& exists|g: Game, mid: Map<Seq<char>, GameView>|
                    {
                        &&& g@.cells.len() == crate::game::page_cell_count(config.page_size, requested_cells(count) as usize)
                        &&& crate::game::freshly_dealt(config@, g@)
                        &&& resp.card_id@ == g@.id
                        &&& resp.cells@.len() == g@.cells.len()
                        &&& forall|i: int| 0 <= i < resp.cells@.len() ==> #[trigger] resp.cells@[i].id == g@.cells[i].id
                        &&& made_room(old(store)@, old(store).size(), mid)
                        &&& final(store)@ == mid.insert(g@.id, g@)
                    }
                &&& final(store).cards_dealt() == old(store).cards_dealt() + 1
                &&& final(store).winning_settlements() == old(store).winning_settlements()
                &&& final(store).reward_paid() == old(store).reward_paid()
            },
            Err(_) => {
                &&& final(store)@ == old(store)@
                &&& final(store).size() == old(store).size()
                &&& final(store).cards_dealt() == old(store).cards_dealt()
                &&& final(store).winning_settlements() == old(store).winning_settlements()
                &&& final(store).reward_paid() == old(store).reward_paid()
            },
        },
{
    if store.total_cards() == u64::MAX {
        return Err(NewGameError::Refused(ApiError::internal()));
    }
    let requested: usize = match count {
        Some(n) => n as usize,
        None => MAX_PAGE_CELLS,
    };
    let game = match Game::create(config, requested, store.clock()) {
        Ok(g) => g,
        Err(e) => return Err(NewGameError::RandomSource(e)),
    };
    let response = game.to_new_card_response();
    let ghost g = game;
    store.insert(game);
    Ok(response)
}

/// Scratches cell `req.cell_id` of page `req.card_id`. An empty id is a
/// malformed request; an id the store does not hold is answered as an
/// unknown page; otherwise the page answers (see `Game::reveal_cell`) and
/// the store keeps the page as the scratch leaves it. Refusals change
/// nothing.
pub fn reveal_card(store: &mut GameStore, req: &RevealRequest) -> (r: Result<RevealResponse, ApiError>)
    requires
        old(store).wf(),
    ensures
        final(store).wf(),
        final(store).size() == old(store).size(),
        final(store).cards_dealt() == old(store).cards_dealt(),
        final(store).winning_settlements() == old(store).winning_settlements(),
        final(store).reward_paid() == old(store).reward_paid(),
        req.card_id@.len() == 0 ==> (r matches Err(e) && e@ == empty_card_id_answer() && final(store)@
            == old(store)@),
        req.card_id@.len() != 0 && !old(store)@.contains_key(req.card_id@) ==> (r matches Err(e)
            && e@ == game_error_answer(GameError::CardNotFound) && final(store)@ == old(store)@),
        req.card_id@.len() != 0 && old(store)@.contains_key(req.card_id@) ==> {
            let g = old(store)@[req.card_id@];
            &&& match reveal_outcome(g, req.cell_id) {
                Ok(v) => r matches Ok(resp) && resp@ == v,
                Err(e) => r matches Err(a) && a@ == game_error_answer(e),
            }
            &&& final(store)@ == old(store)@.insert(req.card_id@, after_reveal(g, req.cell_id))
        },
{
    if req.card_id.as_str().is_empty() {
        return Err(ApiError::bad_request_str("card_id 不能为空"));
    }
    match store.game_mut(req.card_id.as_str()) {
        None => Err(ApiError::from_game_error(GameError::CardNotFound)),
        Some(game) => match game.reveal_cell(req.cell_id) {
            Ok(resp) => Ok(resp),
            Err(e) => Err(ApiError::from_game_error(e)),
        },
    }
}

/// Settles page `req.card_id` and counts the settlement in the store's
/// totals. An empty id is a malformed request; an id the store does not
/// hold is answered as an unknown page; otherwise the page answers (see
/// `Game::finish`). When the revealed amounts would not fit a `u32`, or
/// counting a winning settlement would overflow the win count or the paid
/// total, the server fails instead and nothing changes.
pub fn finish(store: &mut GameStore, req: &FinishRequest) -> (r: Result<FinishResponse, ApiError>)
    requires
        old(store).wf(),
    ensures
        final(store).wf(),
        final(store).size() == old(store).size(),
        final(store).cards_dealt() == old(store).cards_dealt(),
        req.card_id@.len() == 0 ==> (r matches Err(e) && e@ == empty_card_id_answer() && final(store)@
            == old(store)@ && final(store).winning_settlements() == old(store).winning_settlements()
            && final(store).reward_paid() == old(store).reward_paid()),
        req.card_id@.len() != 0 && !old(store)@.contains_key(req.card_id@) ==> (r matches Err(e)
            && e@ == game_error_answer(GameError::CardNotFound) && final(store)@ == old(store)@
            && final(store).winning_settlements() == old(store).winning_settlements()
            && final(store).reward_paid() == old(store).reward_paid()),
        req.card_id@.len() != 0 && old(store)@.contains_key(req.card_id@) ==> {
            let g = old(store)@[req.card_id@];
            let total = revealed_total(g.cells);
            let fits = g.finished || (total <= u32::MAX && (total == 0 || (old(
                store,
            ).winning_settlements() < u64::MAX && old(store).reward_paid() + total <= u64::MAX)));
            &&& !fits ==> (r matches Err(e) && e@ == internal_answer() && final(store)@ == old(store)@
                && final(store).winning_settlements() == old(store).winning_settlements()
                && final(store).reward_paid() == old(store).reward_paid())
            &&& fits ==> match finish_outcome(g) {
                Ok(v) => {
                    &&& r matches Ok(resp) && resp@ == v
                    &&& final(store)@ == old(store)@.insert(req.card_id@, after_finish(g))
                    &&& final(store).winning_settlements() == old(store).winning_settlements() + if v.reward > 0 { 1int } else { 0int }
                    &&& final(store).reward_paid() == old(store).reward_paid() + v.reward
                },
                Err(e) => {
                    &&& r matches Err(a) && a@ == game_error_answer(e)
                    &&& final(store)@ == old(store)@
                    &&& final(store).winning_settlements() == old(store).winning_settlements()
                    &&& final(store).reward_paid() == old(store).reward_paid()
                },
            }
        },
{
    if req.card_id.as_str().is_empty() {
        return Err(ApiError::bad_request_str("card_id 不能为空"));
    }
    let wins = store.total_wins();
    let paid = store.total_reward();
    let response = match store.game_mut(req.card_id.as_str()) {
        None => return Err(ApiError::from_game_error(GameError::CardNotFound)),
        Some(game) => {
            if !game.finished {
                match game.revealed_reward() {
                    None => return Err(ApiError::internal()),
                    Some(total) => {
                        if total > 0 && (wins == u64::MAX || paid > u64::MAX - (total as u64)) {
                            return Err(ApiError::internal());
                        }
                    },
                }
            }
            match game.finish() {
                Ok(resp) => resp,
                Err(e) => return Err(ApiError::from_game_error(e)),
            }
        },
    };
    store.record_finish(response.reward);
    Ok(response)
}

} // verus!

use scratch_card::api::{finish, get_config, new_game, reveal_card, ApiError};
use scratch_card::config::GameConfig;
use scratch_card::models::{Cell, FinishRequest, Game, GameError, RevealRequest};
use scratch_card::state::GameStore;

fn store_with_page() -> GameStore {
    let mut store = GameStore::new();
    let cells = vec![
        Cell { id: 0, amount: 20, label: "$20".to_string(), revealed: false },
        Cell { id: 1, amount: 0, label: "$0".to_string(), revealed: false },
    ];
    store.insert(Game { id: "card".to_string(), cells, finished: false, created_at: 0 });
    store
}

fn reveal_req(card: &str, cell: u8) -> RevealRequest {
    RevealRequest { card_id: card.to_string(), cell_id: cell }
}

fn finish_req(card: &str) -> FinishRequest {
    FinishRequest { card_id: card.to_string() }
}

#[test]
fn game_errors_map_to_answers() {
    let e = ApiError::from_game_error(GameError::CardNotFound);
    assert_eq!((e.status, e.code, e.message.as_str()), (404, "card_not_found", "刮刮卡不存在或已过期"));
    let e = ApiError::from_game_error(GameError::CellOutOfRange);
    assert_eq!((e.status, e.code, e.message.as_str()), (400, "invalid_cell", "格子编号无效"));
    let e = ApiError::from_game_error(GameError::AlreadyRevealed);
    assert_eq!((e.status, e.code, e.message.as_str()), (409, "already_revealed", "该格子已经刮开"));
    let e = ApiError::from_game_error(GameError::AlreadyFinished);
    assert_eq!(
        (e.status, e.code, e.message.as_str()),
        (409, "already_finished", "该刮刮卡已结算，不能重复领取")
    );
    let e = ApiError::internal();
    assert_eq!((e.status, e.code, e.message.as_str()), (500, "internal_error", "服务器内部错误"));
    let e = ApiError::bad_request_str("bad");
    assert_eq!((e.status, e.code, e.message.as_str()), (400, "invalid_request", "bad"));
}

#[test]
fn public_config_hides_tiers() {
    let config = GameConfig::default();
    let p = get_config(&config);
    assert_eq!(p.page_size, 5);
    assert_eq!(p.max_count, 100);
    assert_eq!(p.daily_limit, 0);
    assert_eq!(f64::from_bits(p.reveal_threshold), 0.7);
    assert_eq!(p.lose_label, "$0");
}

#[test]
fn new_game_deals_requested_or_full_page() {
    let config = GameConfig::default();
    let mut store = GameStore::new();
    let r = new_game(&mut store, &config, Some(3)).unwrap();
    assert_eq!(r.cells.len(), 3);
    assert_eq!(r.card_id.len(), 32);
    assert_eq!(store.game_mut(&r.card_id).unwrap().cells.len(), 3);
    let r = new_game(&mut store, &config, None).unwrap();
    assert_eq!(r.cells.len(), 5);
    let r = new_game(&mut store, &config, Some(0)).unwrap();
    assert_eq!(r.cells.len(), 1);
    assert_eq!(store.total_cards, 3);
}

#[test]
fn reveal_card_answers() {
    let mut store = store_with_page();
    let e = reveal_card(&mut store, &reveal_req("", 0)).unwrap_err();
    assert_eq!((e.status, e.code, e.message.as_str()), (400, "invalid_request", "card_id 不能为空"));
    let e = reveal_card(&mut store, &reveal_req("nope", 0)).unwrap_err();
    assert_eq!(e.code, "card_not_found");
    let e = reveal_card(&mut store, &reveal_req("card", 5)).unwrap_err();
    assert_eq!(e.code, "invalid_cell");
    let r = reveal_card(&mut store, &reveal_req("card", 0)).unwrap();
    assert_eq!((r.amount, r.win), (20, true));
    let e = reveal_card(&mut store, &reveal_req("card", 0)).unwrap_err();
    assert_eq!(e.code, "already_revealed");
}

#[test]
fn finish_answers_and_counts() {
    let mut store = store_with_page();
    let e = finish(&mut store, &finish_req("")).unwrap_err();
    assert_eq!(e.code, "invalid_request");
    let e = finish(&mut store, &finish_req("nope")).unwrap_err();
    assert_eq!(e.code, "card_not_found");
    reveal_card(&mut store, &reveal_req("card", 0)).unwrap();
    let f = finish(&mut store, &finish_req("card")).unwrap();
    assert_eq!((f.win, f.reward, f.message.as_str()), (true, 20, "本页共中奖 $20！"));
    assert_eq!((store.total_wins, store.total_reward), (1, 20));
    let e = finish(&mut store, &finish_req("card")).unwrap_err();
    assert_eq!(e.code, "already_finished");
    let e = reveal_card(&mut store, &reveal_req("card", 1)).unwrap_err();
    assert_eq!(e.code, "already_finished");
    assert_eq!((store.total_wins, store.total_reward), (1, 20));
}

#[test]
fn finish_with_oversized_total_is_a_server_failure() {
    let mut store = GameStore::new();
    let cells = vec![
        Cell { id: 0, amount: u32::MAX, label: "$big".to_string(), revealed: true },
        Cell { id: 1, amount: 1, label: "$1".to_string(), revealed: true },
    ];
    store.insert(Game { id: "big".to_string(), cells, finished: false, created_at: 0 });
    let e = finish(&mut store, &finish_req("big")).unwrap_err();
    assert_eq!(e.code, "internal_error");
    assert!(!store.game_mut("big").unwrap().finished);
}

#[test]
fn finish_with_full_totals_still_settles_a_losing_page() {
    let mut store = store_with_page();
    store.total_wins = u64::MAX;
    store.total_reward = u64::MAX;
    reveal_card(&mut store, &reveal_req("card", 1)).unwrap();
    let f = finish(&mut store, &finish_req("card")).unwrap();
    assert_eq!((f.win, f.reward), (false, 0));
    assert_eq!((store.total_wins, store.total_reward), (u64::MAX, u64::MAX));
}

#[test]
fn finish_refuses_only_when_the_reward_would_overflow() {
    let mut store = store_with_page();
    store.total_reward = u64::MAX - 20;
    reveal_card(&mut store, &reveal_req("card", 0)).unwrap();
    let f = finish(&mut store, &finish_req("card")).unwrap();
    assert_eq!(f.reward, 20);
    assert_eq!(store.total_reward, u64::MAX);

    let mut store = store_with_page();
    store.total_reward = u64::MAX - 19;
    reveal_card(&mut store, &reveal_req("card", 0)).unwrap();
    let e = finish(&mut store, &finish_req("card")).unwrap_err();
    assert_eq!(e.code, "internal_error");
    assert!(!store.game_mut("card").unwrap().finished);
}

#[test]
fn refused_requests_leave_totals_alone() {
    let mut store = store_with_page();
    let before = (store.total_cards, store.total_wins, store.total_reward);
    let _ = reveal_card(&mut store, &reveal_req("", 0));
    let _ = reveal_card(&mut store, &reveal_req("nope", 0));
    let _ = finish(&mut store, &finish_req("nope"));
    reveal_card(&mut store, &reveal_req("card", 0)).unwrap();
    assert_eq!((store.total_cards, store.total_wins, store.total_reward), before);
}

#[test]
fn rate_limited_answer_is_429() {
    let e = ApiError::rate_limited();
    assert_eq!(e.status, 429);
    assert_eq!(e.code, "rate_limited");
    assert_eq!(e.message, "操作过于频繁，请稍后再试");
}

use scratch_card::config::GameConfig;
use scratch_card::models::{Cell, Game};
use scratch_card::state::{GameStore, MAX_GAMES};

fn page(id: &str, created_at: u64) -> Game {
    let cells = vec![Cell { id: 0, amount: 20, label: "$20".to_string(), revealed: false }];
    Game { id: id.to_string(), cells, finished: false, created_at }
}

#[test]
fn insert_then_find() {
    let mut store = GameStore::new();
    assert!(store.game_mut("a").is_none());
    store.insert(page("a", 1));
    assert_eq!(store.total_cards, 1);
    let g = store.game_mut("a").expect("inserted page is found");
    assert_eq!(g.id, "a");
    g.reveal_cell(0).unwrap();
    assert!(store.game_mut("a").unwrap().cells[0].revealed);
    assert!(store.game_mut("b").is_none());
}

#[test]
fn same_id_replaces_the_page() {
    let mut store = GameStore::default();
    store.insert(page("a", 1));
    store.insert(page("a", 2));
    assert_eq!(store.game_mut("a").unwrap().created_at, 2);
    assert_eq!(store.total_cards, 2);
}

#[test]
fn full_store_drops_settled_pages_first() {
    let mut store = GameStore::new();
    for i in 0..MAX_GAMES {
        let mut g = page(&format!("g{i}"), i as u64);
        if i % 2 == 0 {
            g.finished = true;
        }
        store.insert(g);
    }
    store.insert(page("new", 5000));
    assert!(store.game_mut("new").is_some());
    for i in 0..MAX_GAMES {
        let found = store.game_mut(&format!("g{i}")).is_some();
        assert_eq!(found, i % 2 == 1, "page g{i}");
    }
}

#[test]
fn full_store_of_open_pages_drops_the_oldest_half() {
    let mut store = GameStore::new();
    // Insert in an order unrelated to age.
    for i in 0..MAX_GAMES {
        let age = ((i * 7919) % MAX_GAMES) as u64;
        store.insert(page(&format!("g{age}"), age));
    }
    store.insert(page("new", 9999));
    assert!(store.game_mut("new").is_some());
    for age in 0..MAX_GAMES {
        let found = store.game_mut(&format!("g{age}")).is_some();
        assert_eq!(found, age >= MAX_GAMES / 2, "page of age {age}");
    }
}

#[test]
fn record_finish_counts_only_wins() {
    let mut store = GameStore::new();
    store.record_finish(0);
    assert_eq!((store.total_wins, store.total_reward), (0, 0));
    store.record_finish(20);
    store.record_finish(5);
    assert_eq!((store.total_wins, store.total_reward), (2, 25));
    assert_eq!(store.total_wins(), 2);
    assert_eq!(store.total_reward(), 25);
}

#[test]
fn created_pages_go_in_and_come_out() {
    let config = GameConfig::default();
    let mut store = GameStore::new();
    let game = Game::create(&config, 5, store.clock()).expect("OS RNG should be available");
    let id = game.id.clone();
    store.insert(game);
    assert_eq!(store.game_mut(&id).unwrap().cells.len(), 5);
}

#[test]
fn pages_dealt_later_are_younger() {
    let config = GameConfig::default();
    let mut store = GameStore::new();
    let first = Game::create(&config, 5, store.clock()).expect("OS RNG should be available");
    let second = Game::create(&config, 5, store.clock()).expect("OS RNG should be available");
    assert!(first.created_at <= second.created_at);
    store.insert(first);
    store.insert(second);
    assert_eq!(store.total_cards(), 2);
}

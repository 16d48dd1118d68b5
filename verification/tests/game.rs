use std::collections::{HashMap, HashSet};
use std::time::Instant;

use scratch_card::config::GameConfig;
use scratch_card::game::choose_tier;
use scratch_card::models::{GameError, MAX_PAGE_CELLS};
use scratch_card::models::Game;
use scratch_card::os::random_unit;

fn test_config() -> GameConfig {
    GameConfig::default()
}

/// A number in `0..=1` as a draw in units of 2^-53.
fn draw(x: f64) -> u64 {
    (x * 9007199254740992.0) as u64
}

#[test]
fn page_has_requested_cells_and_unique_id() {
    let config = test_config();
    let game = Game::create(&config, 5, &Instant::now()).expect("OS RNG should be available");
    assert_eq!(game.cells.len(), 5);
    for (i, cell) in game.cells.iter().enumerate() {
        assert_eq!(cell.id as usize, i);
        assert!(!cell.label.is_empty());
        assert!(!cell.revealed);
    }
    assert_eq!(game.id.len(), 32);
}

#[test]
fn page_size_is_clamped() {
    let config = test_config();
    assert_eq!(Game::create(&config, 999, &Instant::now()).expect("OS RNG should be available").cells.len(), MAX_PAGE_CELLS);
    assert_eq!(Game::create(&config, 0, &Instant::now()).expect("OS RNG should be available").cells.len(), 1);
}

#[test]
fn card_ids_are_unique() {
    let config = test_config();
    let mut ids = HashSet::new();
    for _ in 0..1000 {
        let game = Game::create(&config, 5, &Instant::now()).expect("OS RNG should be available");
        assert!(ids.insert(game.id));
    }
}

#[test]
fn cell_amounts_match_config() {
    let config = test_config();
    for _ in 0..2000 {
        let game = Game::create(&config, 5, &Instant::now()).expect("OS RNG should be available");
        for cell in &game.cells {
            if cell.amount == 0 {
                assert_eq!(cell.label, config.lose_label);
            } else {
                let tier = config
                    .rewards
                    .iter()
                    .find(|t| t.value == cell.amount)
                    .expect("winning amount must exist in config");
                assert_eq!(cell.label, tier.symbol);
            }
        }
    }
}

#[test]
fn probability_distribution_is_roughly_correct() {
    let config = test_config();
    let rounds = 100_000;
    let mut counts = HashMap::new();
    for _ in 0..rounds {
        let amount = choose_tier(random_unit().expect("OS RNG should be available"), &config).map_or(0, |t| t.value);
        *counts.entry(amount).or_insert(0u32) += 1;
    }
    for tier in &config.rewards {
        let observed = counts.get(&tier.value).copied().unwrap_or(0) as f64 / rounds as f64;
        let expected = f64::from_bits(tier.probability);
        assert!(
            (observed - expected).abs() < 0.01,
            "{} observed {observed}, expected ~{expected}",
            tier.name
        );
    }
}

#[test]
fn reveal_validates_range_and_duplicates() {
    let config = test_config();
    let mut game = Game::create(&config, 5, &Instant::now()).expect("OS RNG should be available");
    assert_eq!(game.reveal_cell(9).unwrap_err(), GameError::CellOutOfRange);
    assert!(game.reveal_cell(0).is_ok());
    assert_eq!(game.reveal_cell(0).unwrap_err(), GameError::AlreadyRevealed);
}

#[test]
fn finish_can_only_happen_once() {
    let config = test_config();
    let mut game = Game::create(&config, 5, &Instant::now()).expect("OS RNG should be available");
    let first = game.finish().expect("first finish succeeds");
    assert_eq!(first.win, first.reward > 0);
    assert!(game.finished);
    assert_eq!(game.finish().unwrap_err(), GameError::AlreadyFinished);
    assert_eq!(game.reveal_cell(1).unwrap_err(), GameError::AlreadyFinished);
}

#[test]
fn finish_sums_only_revealed_amounts() {
    let config = test_config();
    let mut game = Game::create(&config, 5, &Instant::now()).expect("OS RNG should be available");
    assert_eq!(game.finish().expect("finish").reward, 0);

    let mut game = Game::create(&config, 5, &Instant::now()).expect("OS RNG should be available");
    let expected: u32 = game.cells.iter().map(|c| c.amount).sum();
    for id in 0..game.cells.len() as u8 {
        game.reveal_cell(id).expect("reveal");
    }
    let response = game.finish().expect("finish");
    assert_eq!(response.reward, expected);
    assert_eq!(response.win, expected > 0);
}

#[test]
fn reveal_returns_cell_amount() {
    let config = test_config();
    let mut game = Game::create(&config, 5, &Instant::now()).expect("OS RNG should be available");
    let expected = game.cells[2].clone();
    let response = game.reveal_cell(2).expect("reveal");
    assert_eq!(response.cell_id, 2);
    assert_eq!(response.amount, expected.amount);
    assert_eq!(response.label, expected.label);
    assert_eq!(response.win, expected.amount > 0);
}

#[test]
fn tier_selection_respects_probabilities() {
    let config = test_config();
    assert!(choose_tier(draw(0.0), &config).is_some());
    let first = f64::from_bits(config.rewards[0].probability);
    assert_eq!(
        choose_tier(draw(first - f64::EPSILON), &config).unwrap().name,
        config.rewards[0].name
    );
    assert!(choose_tier(draw(1.0), &config).is_none());
}

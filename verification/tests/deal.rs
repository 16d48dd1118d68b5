use std::time::Instant;

use scratch_card::config::GameConfig;
use scratch_card::game::choose_tier;
use scratch_card::models::Game;
use scratch_card::fixed_point::threshold_of;
use scratch_card::os::{new_card_id, random_unit, u64_from_le, unit_from_u64};

#[test]
fn deal_follows_cumulative_intervals() {
    let config = GameConfig::default();
    // The first draw (in units of 2^-53) that is not below each running f64
    // sum of the built-in probabilities.
    let c1: u64 = 9007199254741;
    let c2: u64 = 99079191802151;
    let c3: u64 = 549439154539201;
    let c4: u64 = 2350879005487399;
    let draws = [0, c1 - 1, c1, c2 - 1, c2, c3, c4 - 1, c4, (1u64 << 53) - 1];
    let game = Game::deal(&config, &draws, "abc".to_string(), 7);
    let amounts: Vec<u32> = game.cells.iter().map(|c| c.amount).collect();
    assert_eq!(amounts, vec![1000, 1000, 100, 100, 20, 5, 5, 0, 0]);
    let labels: Vec<&str> = game.cells.iter().map(|c| c.label.as_str()).collect();
    assert_eq!(labels, vec!["$1000", "$1000", "$100", "$100", "$20", "$5", "$5", "$0", "$0"]);
    for (i, cell) in game.cells.iter().enumerate() {
        assert_eq!(cell.id as usize, i);
        assert!(!cell.revealed);
    }
    assert_eq!(game.id, "abc");
    assert_eq!(game.created_at, 7);
    assert!(!game.finished);
}

#[test]
fn choose_tier_boundaries() {
    let config = GameConfig::default();
    let c1: u64 = 9007199254741;
    // 9007199254740 / 2^53 is below 0.001.
    assert_eq!(choose_tier(9007199254740, &config).unwrap().value, 1000);
    assert_eq!(choose_tier(c1 - 1, &config).unwrap().value, 1000);
    assert_eq!(choose_tier(c1, &config).unwrap().value, 100);
    assert!(choose_tier(u64::MAX, &config).is_none());
}

#[test]
fn random_draws_are_below_one() {
    for _ in 0..1000 {
        assert!(random_unit().expect("OS RNG should be available") < (1u64 << 53));
    }
}

#[test]
fn card_ids_are_lowercase_hex() {
    let id = new_card_id().expect("OS RNG should be available");
    assert_eq!(id.len(), 32);
    assert!(id.chars().all(|c| c.is_ascii_digit() || ('a'..='f').contains(&c)));
}

#[test]
fn page_size_of_rules_limits_the_page() {
    let mut config = GameConfig::default();
    config.page_size = 3;
    assert_eq!(Game::create(&config, 5, &Instant::now()).expect("OS RNG should be available").cells.len(), 3);
    assert_eq!(Game::create(&config, 2, &Instant::now()).expect("OS RNG should be available").cells.len(), 2);
    config.page_size = 0;
    assert_eq!(Game::create(&config, 5, &Instant::now()).expect("OS RNG should be available").cells.len(), 1);
    config.page_size = 9;
    assert_eq!(Game::create(&config, 9, &Instant::now()).expect("OS RNG should be available").cells.len(), 5);
}

#[test]
fn new_card_response_carries_no_amounts() {
    let config = GameConfig::default();
    let game = Game::create(&config, 4, &Instant::now()).expect("OS RNG should be available");
    let response = game.to_new_card_response();
    assert_eq!(response.card_id, game.id);
    let ids: Vec<u8> = response.cells.iter().map(|c| c.id).collect();
    assert_eq!(ids, vec![0, 1, 2, 3]);
}

#[test]
fn bytes_read_little_endian() {
    assert_eq!(u64_from_le(&[1, 0, 0, 0, 0, 0, 0, 0]), 1);
    assert_eq!(u64_from_le(&[0, 1, 0, 0, 0, 0, 0, 0]), 256);
    assert_eq!(u64_from_le(&[0x08, 0x07, 0x06, 0x05, 0x04, 0x03, 0x02, 0x01]), 0x0102_0304_0506_0708);
    assert_eq!(u64_from_le(&[0xff; 8]), u64::MAX);
    assert_eq!(u64_from_le(&[0; 8]), 0);
}

#[test]
fn draw_keeps_top_53_bits() {
    assert_eq!(unit_from_u64(0), 0);
    assert_eq!(unit_from_u64(2047), 0);
    assert_eq!(unit_from_u64(2048), 1);
    assert_eq!(unit_from_u64(u64::MAX), (1u64 << 53) - 1);
    assert_eq!(unit_from_u64(1u64 << 63), 1u64 << 52);
}

#[test]
fn tier_odds_follow_the_cuts() {
    let config = GameConfig::default();
    let cuts: Vec<u128> = config.rewards.iter().map(|t| threshold_of(t.cumulative)).collect();
    assert_eq!(cuts, vec![9007199254741, 99079191802151, 549439154539201, 2350879005487399]);
    let one = (1u64 << 53) as f64;
    let mut before: u128 = 0;
    for (tier, cut) in config.rewards.iter().zip(cuts.iter()) {
        let odds = (*cut - before) as f64 / one;
        assert!((odds - f64::from_bits(tier.probability)).abs() < 1e-12);
        // The last draw of the tier's run lands on it, the next one does not.
        assert_eq!(choose_tier((*cut - 1) as u64, &config).unwrap().value, tier.value);
        assert_ne!(choose_tier(*cut as u64, &config).map(|t| t.value), Some(tier.value));
        before = *cut;
    }
}

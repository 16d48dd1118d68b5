use scratch_card::config::{
    default_daily_limit, default_lose_label, default_max_count, default_page_size,
    default_reveal_threshold, ConfigError, GameConfig, RewardTier,
};
use scratch_card::fixed_point::threshold_of;

fn tier(name: &str, symbol: &str, value: u32, p: f64) -> RewardTier {
    RewardTier {
        name: name.to_string(),
        symbol: symbol.to_string(),
        value,
        probability: p.to_bits(),
        cumulative: 0,
    }
}

/// Recomputes each tier's running `f64` sum of probabilities, as the server
/// does when it reads the rules file.
fn with_sums(mut c: GameConfig) -> GameConfig {
    let mut sum = 0.0f64;
    for t in c.rewards.iter_mut() {
        sum += f64::from_bits(t.probability);
        t.cumulative = sum.to_bits();
    }
    c
}

fn invalid_message(config: GameConfig) -> &'static str {
    match with_sums(config).validate() {
        Err(ConfigError::Invalid(m)) => m,
        Err(other) => panic!("unexpected error {other:?}"),
        Ok(_) => panic!("config should be refused"),
    }
}

#[test]
fn default_config_is_valid_and_matches_builtin_values() {
    let config = GameConfig::default();
    assert_eq!(config.rewards.len(), 4);
    assert_eq!(config.rewards[0].symbol, "$1000");
    assert_eq!(config.rewards[0].value, 1000);
    assert_eq!(f64::from_bits(config.rewards[0].probability), 0.001);
    assert_eq!(f64::from_bits(config.rewards[3].probability), 0.2);
    assert_eq!(config.page_size, 5);
    assert_eq!(config.max_count, 100);
    assert_eq!(config.lose_label, "$0");
    assert_eq!(config.daily_limit, 0);
    assert_eq!(f64::from_bits(config.reveal_threshold), 0.7);
    let sums: Vec<u64> = config.rewards.iter().map(|t| t.cumulative).collect();
    assert_eq!(sums, with_sums(GameConfig::default()).rewards.iter().map(|t| t.cumulative).collect::<Vec<_>>());
    assert!(config.validate().is_ok());
}

#[test]
fn serde_defaults() {
    assert_eq!(default_page_size(), 5);
    assert_eq!(default_max_count(), 100);
    assert_eq!(default_lose_label(), "$0");
    assert_eq!(default_daily_limit(), 10);
    assert_eq!(f64::from_bits(default_reveal_threshold()), 0.7);
}

#[test]
fn empty_rewards_are_refused() {
    let mut c = GameConfig::default();
    c.rewards.clear();
    assert_eq!(invalid_message(c), "rewards 不能为空");
}

#[test]
fn page_size_out_of_range_is_refused() {
    let mut c = GameConfig::default();
    c.page_size = 0;
    assert_eq!(invalid_message(c), "page_size 必须在 1..=MAX_PAGE_CELLS 范围内");
    let mut c = GameConfig::default();
    c.page_size = 6;
    assert_eq!(invalid_message(c), "page_size 必须在 1..=MAX_PAGE_CELLS 范围内");
}

#[test]
fn max_count_rules() {
    let mut c = GameConfig::default();
    c.max_count = 10_001;
    assert_eq!(invalid_message(c), "max_count 必须在 1..=10000 范围内");
    let mut c = GameConfig::default();
    c.max_count = 0;
    assert_eq!(invalid_message(c), "max_count 必须在 1..=10000 范围内");
    let mut c = GameConfig::default();
    c.max_count = 4;
    assert_eq!(invalid_message(c), "max_count 不能小于 page_size");
    let mut c = GameConfig::default();
    c.max_count = 5;
    assert!(with_sums(c).validate().is_ok());
}

#[test]
fn empty_lose_label_is_refused() {
    let mut c = GameConfig::default();
    c.lose_label = String::new();
    assert_eq!(invalid_message(c), "lose_label 不能为空");
}

#[test]
fn reveal_threshold_range() {
    for bad in [0.0f64, 0.049, 1.01, -0.5, f64::NAN] {
        let mut c = GameConfig::default();
        c.reveal_threshold = bad.to_bits();
        assert_eq!(invalid_message(c), "reveal_threshold 必须在 0.05..=1 范围内");
    }
    for good in [0.05f64, 0.5, 1.0] {
        let mut c = GameConfig::default();
        c.reveal_threshold = good.to_bits();
        assert!(with_sums(c).validate().is_ok());
    }
}

#[test]
fn tier_checks_in_order() {
    let mut c = GameConfig::default();
    c.rewards[1] = tier("x", "$9", 9, 1.5);
    assert_eq!(invalid_message(c), "概率必须在 0..=1 范围内");
    let mut c = GameConfig::default();
    c.rewards[1] = tier("x", "$9", 9, -0.1);
    assert_eq!(invalid_message(c), "概率必须在 0..=1 范围内");
    let mut c = GameConfig::default();
    c.rewards[2] = tier("x", "", 9, 0.1);
    assert_eq!(invalid_message(c), "奖级 symbol 不能为空");
    // The probability of a tier is checked before its symbol.
    let mut c = GameConfig::default();
    c.rewards[2] = tier("x", "", 9, 2.0);
    assert_eq!(invalid_message(c), "概率必须在 0..=1 范围内");
    // -0.0 is within 0..=1.
    let mut c = GameConfig::default();
    c.rewards[2] = tier("x", "$9", 9, -0.0);
    assert!(with_sums(c).validate().is_ok());
}

#[test]
fn probabilities_must_sum_to_at_most_one() {
    let mut c = GameConfig::default();
    c.rewards = vec![tier("a", "$1", 1, 0.6), tier("b", "$2", 2, 0.5)];
    assert_eq!(invalid_message(c), "中奖概率之和不能超过 1");
    let mut c = GameConfig::default();
    c.rewards = vec![tier("a", "$1", 1, 0.5), tier("b", "$2", 2, 0.5)];
    assert!(with_sums(c).validate().is_ok());
    // The f64 sum 1.0 + 3*2^-54 + 3*2^-54 rounds to 1 + 2^-51, above 1 + EPSILON.
    let small = 3.0 * 2f64.powi(-54);
    let mut c = GameConfig::default();
    c.rewards = vec![tier("a", "$1", 1, 1.0), tier("b", "$2", 2, small), tier("c", "$3", 3, small)];
    assert_eq!(invalid_message(c), "中奖概率之和不能超过 1");
    // 1.0 + EPSILON itself is allowed.
    let mut c = GameConfig::default();
    c.rewards = vec![tier("a", "$1", 1, 1.0), tier("b", "$2", 2, f64::EPSILON)];
    assert!(with_sums(c).validate().is_ok());
}

#[test]
fn header_checks_come_before_tier_checks() {
    let mut c = GameConfig::default();
    c.lose_label = String::new();
    c.rewards[0] = tier("x", "", 1, 3.0);
    assert_eq!(invalid_message(c), "lose_label 不能为空");
}

#[test]
fn thresholds_match_f64_comparison() {
    for x in [0.0f64, -0.0, 0.001, 0.011, 0.061, 0.261, 0.5, 0.7, 1.0, 1e-300, 5e-324, 3.0, -0.2, f64::INFINITY, f64::NAN] {
        let t = threshold_of(x.to_bits());
        for k in [0u64, 1, 9007199254740, 9007199254741, 1u64 << 52, (1u64 << 53) - 1, u64::MAX] {
            let draw = k as f64 / 9007199254740992.0;
            if k < (1u64 << 53) {
                assert_eq!((k as u128) < t, draw < x, "draw {k} against {x}");
            }
        }
    }
}

//! The rules of the game (prize tiers with their probabilities, page size,
//! limits, the losing label, the scratch threshold) and their validation.
//!
//! Reading the rules file and parsing its JSON happen around the library;
//! here the parsed rules are checked, and the built-in rules are defined.

use vstd::prelude::*;

use crate::fixed_point::{
    exceeds_one_plus_epsilon, in_threshold_range, in_unit_interval, FIVE_PERCENT_BITS,
    INFINITY_BITS, NEG_ZERO_BITS, ONE_BITS, ONE_PLUS_EPSILON_BITS,
};
use crate::models::MAX_PAGE_CELLS;

verus! {

/// `std::io::Error`, carried by a failed read of the rules file.
#[verifier::external_type_specification]
#[verifier::external_body]
pub struct ExIoError(std::io::Error);

/// `serde_json::Error`, carried by a failed parse of the rules file.
#[verifier::external_type_specification]
#[verifier::external_body]
pub struct ExJsonError(serde_json::Error);

/// One prize tier. `probability` is the bit pattern of the probability
/// (`f64::to_bits`); `symbol` is the text shown on a cell that wins it;
/// `value` is the amount won. `cumulative` is the bit pattern of the `f64`
/// sum `0.0 + p_0 + ... + p_k` of the probabilities of this tier and all
/// before it, added left to right in `f64`; whoever builds the rules
/// computes it (the server does so when it reads the rules file), since the
/// library holds no floating-point arithmetic.
#[derive(Debug, Clone)]
pub struct RewardTier {
    pub name: String,
    pub symbol: String,
    pub value: u32,
    pub probability: u64,
    pub cumulative: u64,
}

/// The rules of the game. `reveal_threshold` is the bit pattern of the
/// share of a cell that must be scratched before it counts as scratched.
/// `filler_symbols` is a field of older rule files that has no effect; it
/// is kept so that such files still load.
#[derive(Debug, Clone)]
pub struct GameConfig {
    pub rewards: Vec<RewardTier>,
    pub page_size: u32,
    pub max_count: u32,
    pub lose_label: String,
    pub daily_limit: u32,
    pub reveal_threshold: u64,
    pub filler_symbols: Vec<String>,
}

/// Why the rules could not be loaded.
#[derive(Debug)]
pub enum ConfigError {
    Read(std::io::Error),
    Parse(serde_json::Error),
    Invalid(&'static str),
}

/// The mathematical value of a prize tier.
pub struct TierView {
    pub name: Seq<char>,
    pub symbol: Seq<char>,
    pub value: u32,
    pub probability: u64,
    pub cumulative: u64,
}

/// The mathematical value of the rules.
pub struct ConfigView {
    pub rewards: Seq<TierView>,
    pub page_size: u32,
    pub max_count: u32,
    pub lose_label: Seq<char>,
    pub daily_limit: u32,
    pub reveal_threshold: u64,
    pub filler_symbols: Seq<Seq<char>>,
}

impl View for RewardTier {
    type V = TierView;

    open spec fn view(&self) -> TierView {
        TierView {
            name: self.name@,
            symbol: self.symbol@,
            value: self.value,
            probability: self.probability,
            cumulative: self.cumulative,
        }
    }
}

/// The views of a sequence of tiers.
pub open spec fn tiers_view(tiers: Seq<RewardTier>) -> Seq<TierView> {
    tiers.map_values(|t: RewardTier| t@)
}

impl View for GameConfig {
    type V = ConfigView;

    open spec fn view(&self) -> ConfigView {
        ConfigView {
            rewards: tiers_view(self.rewards@),
            page_size: self.page_size,
            max_count: self.max_count,
            lose_label: self.lose_label@,
            daily_limit: self.daily_limit,
            reveal_threshold: self.reveal_threshold,
            filler_symbols: self.filler_symbols@.map_values(|s: String| s@),
        }
    }
}

/// Page size used when the rules file does not give one: a full page.
pub fn default_page_size() -> (r: u32)
    ensures
        r == MAX_PAGE_CELLS,
{
    MAX_PAGE_CELLS as u32
}

/// Greatest number of scratches a player may ask for, when the rules file
/// does not say.
pub fn default_max_count() -> (r: u32)
    ensures
        r == 100,
{
    100
}

/// Text of a losing cell when the rules file does not say.
pub fn default_lose_label() -> (r: String)
    ensures
        r@ == "$0"@,
{
    String::from_str("$0")
}

/// Daily limit when the rules file does not say.
pub fn default_daily_limit() -> (r: u32)
    ensures
        r == 10,
{
    10
}

/// Scratch threshold (bit pattern of 0.7) when the rules file does not say.
pub fn default_reveal_threshold() -> (r: u64)
    ensures
        r == 0x3fe6_6666_6666_6666,
{
    0x3fe6_6666_6666_6666
}

/// The first complaint about a tier, going through the tiers in order and,
/// for each, checking the probability before the symbol.
pub open spec fn tier_error(tiers: Seq<TierView>) -> Option<Seq<char>>
    decreases tiers.len(),
{
    if tiers.len() == 0 {
        None
    } else if !in_unit_interval(tiers[0].probability) {
        Some("概率必须在 0..=1 范围内"@)
    } else if tiers[0].symbol.len() == 0 {
        Some("奖级 symbol 不能为空"@)
    } else {
        tier_error(tiers.drop_first())
    }
}

/// Whether `c` passes every check that comes before the tiers' own.
pub open spec fn header_ok(c: ConfigView) -> bool {
    &&& c.rewards.len() != 0
    &&& 1 <= c.page_size <= MAX_PAGE_CELLS
    &&& 1 <= c.max_count <= 10_000
    &&& c.max_count >= c.page_size
    &&& c.lose_label.len() != 0
    &&& in_threshold_range(c.reveal_threshold)
}

/// The message of the first rule that `c` breaks, or `None` when it breaks
/// none. The probabilities may add up (as the `f64` sum recorded with the
/// last tier) to at most `1.0 + f64::EPSILON`.
pub open spec fn validation_error(c: ConfigView) -> Option<Seq<char>> {
    if c.rewards.len() == 0 {
        Some("rewards 不能为空"@)
    } else if !(1 <= c.page_size <= MAX_PAGE_CELLS) {
        Some("page_size 必须在 1..=MAX_PAGE_CELLS 范围内"@)
    } else if !(1 <= c.max_count <= 10_000) {
        Some("max_count 必须在 1..=10000 范围内"@)
    } else if c.max_count < c.page_size {
        Some("max_count 不能小于 page_size"@)
    } else if c.lose_label.len() == 0 {
        Some("lose_label 不能为空"@)
    } else if !in_threshold_range(c.reveal_threshold) {
        Some("reveal_threshold 必须在 0.05..=1 范围内"@)
    } else if tier_error(c.rewards) is Some {
        tier_error(c.rewards)
    } else if exceeds_one_plus_epsilon(c.rewards.last().cumulative) {
        Some("中奖概率之和不能超过 1"@)
    } else {
        None
    }
}

/// Whether `c` breaks no rule.
pub open spec fn is_valid(c: ConfigView) -> bool {
    validation_error(c) is None
}

/// No tier draws a complaint exactly when every tier has a probability
/// within `0..=1` and a symbol.
proof fn lemma_tier_error_none(tiers: Seq<TierView>)
    ensures
        tier_error(tiers) is None <==> forall|k: int|
            0 <= k < tiers.len() ==> in_unit_interval(#[trigger] tiers[k].probability)
                && tiers[k].symbol.len() != 0,
    decreases tiers.len(),
{
    if tiers.len() > 0 {
        let rest = tiers.drop_first();
        lemma_tier_error_none(rest);
        assert forall|k: int| 1 <= k < tiers.len() implies #[trigger] tiers[k] == rest[k - 1] by {}
        if forall|k: int|
            0 <= k < rest.len() ==> in_unit_interval(#[trigger] rest[k].probability)
                && rest[k].symbol.len() != 0 {
            assert forall|k: int| 1 <= k < tiers.len() implies in_unit_interval(
                #[trigger] tiers[k].probability,
            ) && tiers[k].symbol.len() != 0 by {
                assert(tiers[k] == rest[k - 1]);
            }
        }
        if forall|k: int|
            0 <= k < tiers.len() ==> in_unit_interval(#[trigger] tiers[k].probability)
                && tiers[k].symbol.len() != 0 {
            assert forall|k: int| 0 <= k < rest.len() implies in_unit_interval(
                #[trigger] rest[k].probability,
            ) && rest[k].symbol.len() != 0 by {
                assert(tiers[k + 1] == rest[k]);
            }
        }
    }
}

/// When every tier before tier `k` is sound, the complaint about the tiers
/// is the one about tier `k`, if any, else the one about those after it.
proof fn lemma_first_bad_tier(tiers: Seq<TierView>, k: int)
    requires
        0 <= k < tiers.len(),
        forall|j: int|
            #![trigger tiers[j]]
            0 <= j < k ==> in_unit_interval(tiers[j].probability) && tiers[j].symbol.len() != 0,
    ensures
        tier_error(tiers) == if !in_unit_interval(tiers[k].probability) {
            Some("概率必须在 0..=1 范围内"@)
        } else if tiers[k].symbol.len() == 0 {
            Some("奖级 symbol 不能为空"@)
        } else {
            tier_error(tiers.subrange(k + 1, tiers.len() as int))
        },
{
    let pre = tiers.subrange(0, k);
    lemma_tier_error_none(pre);
    assert forall|j: int| 0 <= j < pre.len() implies in_unit_interval(#[trigger] pre[j].probability)
        && pre[j].symbol.len() != 0 by {
        assert(0 <= j < k);
        assert(pre[j] == tiers[j]);
        let t = tiers[j];
        assert(in_unit_interval(t.probability) && t.symbol.len() != 0);
    }
    lemma_tier_error_split(tiers, k);
    let post = tiers.subrange(k, tiers.len() as int);
    assert(post[0] == tiers[k]);
    assert(post.drop_first() =~= tiers.subrange(k + 1, tiers.len() as int));
}

/// Going through a prefix of the tiers: the complaint about the whole is the
/// one about the prefix when there is one, else the one about the rest.
proof fn lemma_tier_error_split(tiers: Seq<TierView>, i: int)
    requires
        0 <= i <= tiers.len(),
        tier_error(tiers.subrange(0, i)) is None,
    ensures
        tier_error(tiers) == tier_error(tiers.subrange(i, tiers.len() as int)),
    decreases i,
{
    if i > 0 {
        let rest = tiers.drop_first();
        assert(tiers.subrange(0, i).drop_first() =~= rest.subrange(0, i - 1));
        assert(tiers.subrange(0, i)[0] == tiers[0]);
        lemma_tier_error_split(rest, i - 1);
        assert(rest.subrange(i - 1, rest.len() as int) =~= tiers.subrange(i, tiers.len() as int));
    } else {
        assert(tiers.subrange(0, tiers.len() as int) =~= tiers);
    }
}

/// Extending a clean prefix by a clean tier keeps it clean.
proof fn lemma_tier_error_extend(tiers: Seq<TierView>, i: int)
    requires
        0 <= i < tiers.len(),
        tier_error(tiers.subrange(0, i)) is None,
        in_unit_interval(tiers[i].probability),
        tiers[i].symbol.len() != 0,
    ensures
        tier_error(tiers.subrange(0, i + 1)) is None,
    decreases i,
{
    let pre = tiers.subrange(0, i + 1);
    if i > 0 {
        let rest = tiers.drop_first();
        let old_pre = tiers.subrange(0, i);
        assert(old_pre.drop_first() =~= rest.subrange(0, i - 1));
        assert(old_pre[0] == tiers[0]);
        assert(in_unit_interval(tiers[0].probability) && tiers[0].symbol.len() != 0);
        assert(tier_error(old_pre) == tier_error(old_pre.drop_first()));
        assert(rest[i - 1] == tiers[i]);
        lemma_tier_error_extend(rest, i - 1);
        assert(pre.drop_first() =~= rest.subrange(0, i));
        assert(pre[0] == tiers[0]);
    } else {
        assert(pre.drop_first() =~= Seq::<TierView>::empty());
        assert(pre[0] == tiers[0]);
        assert(tier_error(pre.drop_first()) is None);
    }
}

/// A tier with the given fields.
fn make_tier(name: &str, symbol: &str, value: u32, probability: u64, cumulative: u64) -> (t:
    RewardTier)
    ensures
        t@ == (TierView { name: name@, symbol: symbol@, value, probability, cumulative }),
{
    RewardTier {
        name: String::from_str(name),
        symbol: String::from_str(symbol),
        value,
        probability,
        cumulative,
    }
}

/// The built-in rules: four tiers ($1000 at 0.001, $100 at 0.01, $20 at
/// 0.05, $5 at 0.2), full pages, at most 100 scratches, "$0" on losing
/// cells, no daily limit (0) and a scratch threshold of 0.7. They break no
/// rule.
impl Default for GameConfig {
    fn default() -> (r: GameConfig)
        ensures
            r@.rewards =~= seq![
                TierView { name: "特等奖"@, symbol: "$1000"@, value: 1000, probability: 0x3f50_624d_d2f1_a9fc, cumulative: 0x3f50_624d_d2f1_a9fc },
                TierView { name: "一等奖"@, symbol: "$100"@, value: 100, probability: 0x3f84_7ae1_47ae_147b, cumulative: 0x3f86_872b_020c_49ba },
                TierView { name: "二等奖"@, symbol: "$20"@, value: 20, probability: 0x3fa9_9999_9999_999a, cumulative: 0x3faf_3b64_5a1c_ac08 },
                TierView { name: "三等奖"@, symbol: "$5"@, value: 5, probability: 0x3fc9_9999_9999_999a, cumulative: 0x3fd0_b439_5810_624e },
            ],
            r.page_size == 5,
            r.max_count == 100,
            r@.lose_label == "$0"@,
            r.daily_limit == 0,
            r.reveal_threshold == 0x3fe6_6666_6666_6666,
            r@.filler_symbols.len() == 0,
            is_valid(r@),
    {
        let mut rewards: Vec<RewardTier> = Vec::new();
        rewards.push(make_tier("特等奖", "$1000", 1000, 0x3f50_624d_d2f1_a9fc, 0x3f50_624d_d2f1_a9fc));
        rewards.push(make_tier("一等奖", "$100", 100, 0x3f84_7ae1_47ae_147b, 0x3f86_872b_020c_49ba));
        rewards.push(make_tier("二等奖", "$20", 20, 0x3fa9_9999_9999_999a, 0x3faf_3b64_5a1c_ac08));
        rewards.push(make_tier("三等奖", "$5", 5, 0x3fc9_9999_9999_999a, 0x3fd0_b439_5810_624e));
        let r = GameConfig {
            rewards,
            page_size: 5,
            max_count: 100,
            lose_label: String::from_str("$0"),
            daily_limit: 0,
            reveal_threshold: 0x3fe6_6666_6666_6666,
            filler_symbols: Vec::new(),
        };
        proof {
            reveal_strlit("$1000");
            reveal_strlit("$100");
            reveal_strlit("$20");
            reveal_strlit("$5");
            reveal_strlit("$0");
            let t = r@.rewards;
            assert(t.len() == 4);
            assert(!exceeds_one_plus_epsilon(t.last().cumulative));
            assert(t.drop_first().drop_first().drop_first().drop_first() =~= Seq::<TierView>::empty());
            assert(tier_error(t) is None) by {
                reveal_with_fuel(tier_error, 5);
                assert(t.drop_first()[0] == t[1]);
                assert(t.drop_first().drop_first()[0] == t[2]);
                assert(t.drop_first().drop_first().drop_first()[0] == t[3]);
            }
        }
        r
    }
}

impl GameConfig {
    /// Checks the rules. They are handed back unchanged when they break no
    /// rule; otherwise the message of the first rule broken, in this order:
    /// there is at least one tier; the page size is within `1..=5`; the
    /// greatest count is within `1..=10000` and not below the page size; the
    /// losing label is not empty; the threshold is within `0.05..=1`; each
    /// tier in turn has a probability within `0..=1` and a non-empty symbol;
    /// the probabilities add up (as `f64`) to at most `1.0 + f64::EPSILON`.
    #[verifier::loop_isolation(false)]
    pub fn validate(self) -> (r: Result<GameConfig, ConfigError>)
        ensures
            r is Ok <==> is_valid(self@),
            r is Ok <==> {
                &&& self@.rewards.len() != 0
                &&& 1 <= self.page_size <= MAX_PAGE_CELLS
                &&& 1 <= self.max_count <= 10_000
                &&& self.max_count >= self.page_size
                &&& self@.lose_label.len() != 0
                &&& in_threshold_range(self.reveal_threshold)
                &&& forall|k: int|
                    0 <= k < self@.rewards.len() ==> in_unit_interval(
                        #[trigger] self@.rewards[k].probability,
                    ) && self@.rewards[k].symbol.len() != 0
                &&& !exceeds_one_plus_epsilon(self@.rewards.last().cumulative)
            },
            forall|k: int|
                0 <= k < self@.rewards.len() && header_ok(self@) && (forall|j: int|
                    0 <= j < k ==> in_unit_interval(#[trigger] self@.rewards[j].probability)
                        && self@.rewards[j].symbol.len() != 0) ==> {
                    &&& !in_unit_interval(#[trigger] self@.rewards[k].probability) ==> (r matches Err(
                        ConfigError::Invalid(m),
                    ) && m@ == "概率必须在 0..=1 范围内"@)
                    &&& in_unit_interval(self@.rewards[k].probability) && self@.rewards[k].symbol.len()
                        == 0 ==> (r matches Err(ConfigError::Invalid(m)) && m@ == "奖级 symbol 不能为空"@)
                },
            r matches Ok(c) ==> c == self,
            r matches Err(e) ==> (e matches ConfigError::Invalid(m) && validation_error(self@)
                == Some(m@)),
    {
        proof {
            lemma_tier_error_none(self@.rewards);
            let c = self@;
            assert forall|k: int|
                0 <= k < c.rewards.len() && header_ok(c) && (forall|j: int|
                    0 <= j < k ==> in_unit_interval(#[trigger] c.rewards[j].probability)
                        && c.rewards[j].symbol.len() != 0) implies {
                &&& !in_unit_interval(#[trigger] c.rewards[k].probability) ==> validation_error(c) == Some(
                    "概率必须在 0..=1 范围内"@,
                )
                &&& in_unit_interval(c.rewards[k].probability) && c.rewards[k].symbol.len() == 0
                    ==> validation_error(c) == Some("奖级 symbol 不能为空"@)
            } by {
                lemma_first_bad_tier(c.rewards, k);
            }
        }
        if self.rewards.len() == 0 {
            return Err(ConfigError::Invalid("rewards 不能为空"));
        }
        if !(1 <= self.page_size && self.page_size <= MAX_PAGE_CELLS as u32) {
            return Err(ConfigError::Invalid("page_size 必须在 1..=MAX_PAGE_CELLS 范围内"));
        }
        if !(1 <= self.max_count && self.max_count <= 10_000) {
            return Err(ConfigError::Invalid("max_count 必须在 1..=10000 范围内"));
        }
        if self.max_count < self.page_size {
            return Err(ConfigError::Invalid("max_count 不能小于 page_size"));
        }
        if self.lose_label.as_str().is_empty() {
            return Err(ConfigError::Invalid("lose_label 不能为空"));
        }
        if !(FIVE_PERCENT_BITS <= self.reveal_threshold && self.reveal_threshold <= ONE_BITS) {
            return Err(ConfigError::Invalid("reveal_threshold 必须在 0.05..=1 范围内"));
        }
        let ghost tiers = self@.rewards;
        let mut i: usize = 0;
        while i < self.rewards.len()
            invariant
                i <= self.rewards@.len(),
                tiers == tiers_view(self.rewards@),
                tier_error(tiers.subrange(0, i as int)) is None,
                header_ok(self@),
            decreases self.rewards@.len() - i,
        {
            let tier = &self.rewards[i];
            assert(tiers[i as int] == tier@);
            proof {
                lemma_tier_error_split(tiers, i as int);
                assert(tiers.subrange(i as int, tiers.len() as int)[0] == tiers[i as int]);
                assert(tiers.subrange(i as int, tiers.len() as int).drop_first() =~= tiers.subrange(
                    i + 1,
                    tiers.len() as int,
                ));
            }
            if !(tier.probability <= ONE_BITS || tier.probability == NEG_ZERO_BITS) {
                return Err(ConfigError::Invalid("概率必须在 0..=1 范围内"));
            }
            if tier.symbol.as_str().is_empty() {
                return Err(ConfigError::Invalid("奖级 symbol 不能为空"));
            }
            proof {
                lemma_tier_error_extend(tiers, i as int);
                assert(tiers.subrange(0, i + 1).drop_last() =~= tiers.subrange(0, i as int));
            }
            i = i + 1;
        }
        proof {
            assert(tiers.subrange(0, i as int) =~= tiers);
        }
        let total = self.rewards[self.rewards.len() - 1].cumulative;
        assert(total == tiers.last().cumulative);
        if ONE_PLUS_EPSILON_BITS < total && total <= INFINITY_BITS {
            return Err(ConfigError::Invalid("中奖概率之和不能超过 1"));
        }
        Ok(self)
    }
}

} // verus!

//! The parameters that a network starts from.

use crate::crypto::blake3_digest;
use crate::primitives::{address_text, address_text_is_injective, hash_of, lemma_hash_of, Address, Hash256};
use crate::text::{decimal, push_decimal};
use vstd::prelude::*;
use vstd::string::*;
use vstd::utf8::*;

verus! {

pub struct GenesisConfig {
    pub network_name: String,
    pub timestamp: u64,
    pub initial_difficulty: u64,
    /// The reward of the first blocks, in the smallest unit (a coin has
    /// 100 000 000 of them).
    pub initial_reward: u64,
    /// How many blocks pass between two halvings of the reward.
    pub halving_interval: u64,
    pub target_block_time_secs: u64,
    /// How many blocks pass between two readjustments of the difficulty, and how far
    /// each looks back.
    pub retarget_window: u64,
    /// Balances that exist from the start: written addresses and amounts.
    pub premine: Vec<(String, u64)>,
}

/// The text that the genesis block's hash is taken over.
pub open spec fn genesis_text(network_name: Seq<char>, timestamp: u64) -> Seq<char> {
    "ONDRIS_GENESIS:"@ + network_name + ":"@ + decimal(timestamp as nat)
}

/// The genesis block's hash: no proof of work, but a fixed function of the
/// network's name and time.
pub open spec fn genesis_hash(config: GenesisConfig) -> Hash256 {
    hash_of(blake3_digest(encode_utf8(genesis_text(config.network_name@, config.timestamp))))
}

/// Whether `text` is some address's written form.
pub open spec fn is_address(text: Seq<char>) -> bool {
    exists|a: Address| #[trigger] address_text(a@) == text
}

/// The address whose written form is `text`.
pub open spec fn address_written(text: Seq<char>) -> Address {
    choose|a: Address| #[trigger] address_text(a@) == text
}

/// Whether every premine entry names an address.
pub open spec fn premine_valid(premine: Seq<(String, u64)>) -> bool {
    forall|i: int| 0 <= i < premine.len() ==> is_address((#[trigger] premine[i]).0@)
}

/// The premine with its addresses read.
pub open spec fn premine_accounts(premine: Seq<(String, u64)>) -> Seq<(Address, u64)> {
    Seq::new(premine.len(), |i: int| (address_written(premine[i].0@), premine[i].1))
}

/// The reward of a block: halved once per interval, and nothing after 64 halvings.
pub open spec fn reward_at(config: GenesisConfig, height: u64) -> u64 {
    let interval = if config.halving_interval == 0 {
        1
    } else {
        config.halving_interval
    };
    let halvings = height / interval;
    if halvings >= 64 {
        0
    } else {
        config.initial_reward >> halvings
    }
}

/// The hash that stands for the genesis block.
pub fn genesis_block_hash(genesis: &GenesisConfig) -> (r: Hash256)
    ensures
        r == genesis_hash(*genesis),
{
    let mut text: String = String::from_str("ONDRIS_GENESIS:");
    text.append(genesis.network_name.as_str());
    text.append(":");
    push_decimal(&mut text, genesis.timestamp);
    let r = Hash256::hash(text.as_str().as_bytes());
    proof {
        lemma_hash_of(r);
    }
    r
}

impl GenesisConfig {
    /// The parameters of the test network, which has no premine.
    pub fn testnet_default() -> (r: GenesisConfig)
        ensures
            r.network_name@ == "ondris-testnet"@,
            r.timestamp == 1_700_000_000,
            r.initial_difficulty == 1000,
            r.initial_reward == 50 * 100_000_000,
            r.halving_interval == 210_000,
            r.target_block_time_secs == 30,
            r.retarget_window == 60,
            r.premine@.len() == 0,
    {
        GenesisConfig {
            network_name: String::from_str("ondris-testnet"),
            timestamp: 1_700_000_000,
            initial_difficulty: 1000,
            initial_reward: 50 * 100_000_000,
            halving_interval: 210_000,
            target_block_time_secs: 30,
            retarget_window: 60,
            premine: Vec::new(),
        }
    }

    /// The premine with its addresses read; the place of the first entry that
    /// names none, where there is one.
    pub fn premine_parsed(&self) -> (r: Result<Vec<(Address, u64)>, usize>)
        ensures
            match r {
                Ok(entries) => premine_valid(self.premine@) && entries@ == premine_accounts(self.premine@),
                Err(at) => {
                    &&& at < self.premine@.len()
                    &&& !is_address(self.premine@[at as int].0@)
                    &&& forall|i: int| 0 <= i < at ==> is_address((#[trigger] self.premine@[i]).0@)
                },
            },
    {
        let mut entries: Vec<(Address, u64)> = Vec::with_capacity(self.premine.len());
        let mut i: usize = 0;
        while i < self.premine.len()
            invariant
                i <= self.premine@.len(),
                forall|j: int| 0 <= j < i ==> is_address((#[trigger] self.premine@[j]).0@),
                entries@ == premine_accounts(self.premine@).take(i as int),
            decreases self.premine@.len() - i,
        {
            let entry = &self.premine[i];
            match Address::parse(entry.0.as_str()) {
                Some(address) => {
                    proof {
                        assert(address_text(address@) == entry.0@);
                        address_text_is_injective(address, address_written(entry.0@));
                    }
                    entries.push((address, entry.1));
                    assert(entries@ =~= premine_accounts(self.premine@).take(i + 1));
                },
                None => {
                    return Err(i);
                },
            }
            i += 1;
        }
        assert(entries@ =~= premine_accounts(self.premine@));
        Ok(entries)
    }

    /// The reward of the block at `height`.
    pub fn block_reward(&self, height: u64) -> (r: u64)
        ensures
            r == reward_at(*self, height),
    {
        let interval: u64 = if self.halving_interval == 0 {
            1
        } else {
            self.halving_interval
        };
        let halvings: u64 = height / interval;
        if halvings >= 64 {
            0
        } else {
            self.initial_reward >> halvings
        }
    }
}

/// The reward never grows with height.
pub proof fn reward_never_grows(config: GenesisConfig, low: u64, high: u64)
    requires
        low <= high,
    ensures
        reward_at(config, high) <= reward_at(config, low),
{
    let interval = if config.halving_interval == 0 {
        1
    } else {
        config.halving_interval
    };
    let (m, n) = (low / interval, high / interval);
    vstd::arithmetic::div_mod::lemma_div_is_ordered(low as int, high as int, interval as int);
    if n < 64 {
        let x = config.initial_reward;
        assert(m <= n < 64 ==> x >> n <= x >> m) by (bit_vector);
    }
}

/// One interval later the reward is half, rounded down.
pub proof fn reward_halves(config: GenesisConfig, height: u64)
    requires
        config.halving_interval > 0,
        height + config.halving_interval <= u64::MAX,
    ensures
        reward_at(config, (height + config.halving_interval) as u64) == reward_at(config, height) / 2,
{
    let interval = config.halving_interval;
    let m = height / interval;
    assert((height + interval) / (interval as int) == height / interval + 1) by (nonlinear_arith)
        requires
            interval > 0,
    ;
    let x = config.initial_reward;
    let n = (m + 1) as u64;
    if n < 64 {
        assert(m < 63 && n == m + 1 ==> x >> n == (x >> m) / 2) by (bit_vector);
    } else if m == 63 {
        assert((x >> 63u64) / 2 == 0) by (bit_vector);
    }
}

/// Until the first halving the reward is the initial one, and an interval of zero counts
/// as one.
pub proof fn the_first_rewards_are_the_initial_one(config: GenesisConfig, height: u64)
    ensures
        height < config.halving_interval ==> reward_at(config, height) == config.initial_reward,
        config.halving_interval == 0 ==> reward_at(config, height) == reward_at(
            (GenesisConfig { halving_interval: 1, ..config }),
            height,
        ),
        height == 0 ==> reward_at(config, height) == config.initial_reward,
{
    let x = config.initial_reward;
    assert(x >> 0u64 == x) by (bit_vector);
    if height < config.halving_interval {
        vstd::arithmetic::div_mod::lemma_basic_div(height as int, config.halving_interval as int);
    }
    if height == 0 && config.halving_interval > 0 {
        vstd::arithmetic::div_mod::lemma_basic_div(0, config.halving_interval as int);
    }
}

} // verus!

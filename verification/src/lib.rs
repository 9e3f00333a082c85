//! Verified model of a decaying top-50 leaderboard: the bounded ranked list,
//! per-player statistics with time decay, queued rewards and the admin
//! governance operations, each stated over plain values.
use vstd::prelude::*;

pub mod types;
pub mod decay;
pub mod links;
pub mod ranking;
pub mod board;
pub mod player;
pub mod contract;
pub mod laws;

verus! {

/// Number of ranked slots kept in the top list.
pub const MAX_TOP_PLAYERS: u32 = 50;

/// Rank reported for a player who is not in the top list; greater than every
/// in-list rank (`1..=MAX_TOP_PLAYERS`).
pub const UNRANKED_RANK: u32 = MAX_TOP_PLAYERS + 1;

/// Largest page `get_top_players` hands out.
pub const MAX_PAGE_SIZE: u32 = 50;

/// Ledgers by which a touched storage entry's lifetime is raised.
pub const TTL_BUMP: u32 = 3_153_600;

/// Lifetime (in ledgers) a touched storage entry is extended to.
pub const TTL_HIGH: u32 = 6_307_200;

/// Ledgers in one decay period (about seven days at five seconds a ledger).
pub const DECAY_PERIOD_LEDGERS: u32 = 120_960;

/// Each period a score keeps `DECAY_RETAIN_NUM / DECAY_RETAIN_DEN` of its value.
pub const DECAY_RETAIN_NUM: u64 = 9;

/// See `DECAY_RETAIN_NUM`.
pub const DECAY_RETAIN_DEN: u64 = 10;

/// Past this many idle periods a score is fully stale and reads 0. Seven
/// periods take at least half of any score, so after 7 × 64 periods every
/// `u64` score has floored to zero anyway: the cut-off only bounds the decay
/// loop and changes no value, which keeps decay monotone across entries of
/// every age (a descending list stays descending).
pub const DECAY_ZERO_AFTER_PERIODS: u32 = 448;

/// Version of this contract's callable interface.
pub const INTERFACE_VERSION: u32 = 1;

/// Version of the reward token's interface that minting was built against.
pub const EXPECTED_TOKEN_INTERFACE_VERSION: u32 = 1;

} // verus!

//! Plain data types of the leaderboard.
use vstd::prelude::*;

verus! {

/// Identity of an account or contract: its 56-byte strkey packed big-endian
/// into four 128-bit words (the last eight bytes are zero).
#[derive(Clone, Copy, Debug, PartialEq, Eq, Structural, Hash)]
pub struct PlayerKey(pub u128, pub u128, pub u128, pub u128);

/// Errors the leaderboard reports; `code` gives each its stable number.
#[derive(Clone, Copy, Debug, PartialEq, Eq, Structural, PartialOrd, Ord)]
pub enum LeaderboardError {
    AlreadyInitialized,
    NotInitialized,
    UnauthorizedCaller,
    InvalidPoints,
    NotAdmin,
    ContractPaused,
    /// The reward token reports an interface version this contract was not
    /// built against.
    IncompatibleInterface,
    /// Tokens were to be minted but no token contract is configured.
    TokenNotConfigured,
    /// An admin operation named a player the leaderboard does not track.
    PlayerNotFound,
}

impl LeaderboardError {
    /// The stable error number of each variant.
    pub open spec fn spec_code(self) -> u32 {
        match self {
            LeaderboardError::AlreadyInitialized => 1,
            LeaderboardError::NotInitialized => 2,
            LeaderboardError::UnauthorizedCaller => 3,
            LeaderboardError::InvalidPoints => 4,
            LeaderboardError::NotAdmin => 5,
            LeaderboardError::ContractPaused => 6,
            LeaderboardError::IncompatibleInterface => 7,
            LeaderboardError::TokenNotConfigured => 8,
            LeaderboardError::PlayerNotFound => 9,
        }
    }

    pub fn code(&self) -> (r: u32)
        ensures
            r == self.spec_code(),
    {
        match self {
            LeaderboardError::AlreadyInitialized => 1,
            LeaderboardError::NotInitialized => 2,
            LeaderboardError::UnauthorizedCaller => 3,
            LeaderboardError::InvalidPoints => 4,
            LeaderboardError::NotAdmin => 5,
            LeaderboardError::ContractPaused => 6,
            LeaderboardError::IncompatibleInterface => 7,
            LeaderboardError::TokenNotConfigured => 8,
            LeaderboardError::PlayerNotFound => 9,
        }
    }
}

/// One ranked slot: the player, the points it held when written, and the
/// decay epoch it was written in.
#[derive(Clone, Copy, Debug, PartialEq, Eq, Structural)]
pub struct PlayerEntry {
    pub address: PlayerKey,
    pub points: u64,
    pub epoch: u32,
}

/// Statistics as reported to callers.
#[derive(Clone, Copy, Debug, PartialEq, Eq, Structural)]
pub struct PlayerStats {
    pub points: u64,
    pub total_bets: u32,
    pub won_bets: u32,
    pub lost_bets: u32,
}

/// Statistics as stored per player.
#[derive(Clone, Copy, Debug, PartialEq, Eq, Structural)]
pub struct StoredStats {
    pub points: u64,
    pub won_bets: u32,
    pub lost_bets: u32,
    pub bonus_bets: u32,
}

impl StoredStats {
    /// All bets a player has on record.
    pub open spec fn total(self) -> int {
        self.won_bets + self.lost_bets + self.bonus_bets
    }

    pub fn zero() -> (r: StoredStats)
        ensures
            r == (StoredStats { points: 0, won_bets: 0, lost_bets: 0, bonus_bets: 0 }),
    {
        StoredStats { points: 0, won_bets: 0, lost_bets: 0, bonus_bets: 0 }
    }

    /// The reported form: `total_bets` counts won, lost and bonus bets.
    pub fn to_player_stats(&self) -> (r: PlayerStats)
        requires
            self.total() <= u32::MAX,
        ensures
            r == (PlayerStats {
                points: self.points,
                total_bets: self.total() as u32,
                won_bets: self.won_bets,
                lost_bets: self.lost_bets,
            }),
    {
        PlayerStats {
            points: self.points,
            total_bets: self.won_bets + self.lost_bets + self.bonus_bets,
            won_bets: self.won_bets,
            lost_bets: self.lost_bets,
        }
    }
}

/// Rewards queued for a player and not yet applied.
#[derive(Clone, Copy, Debug, PartialEq, Eq, Structural)]
pub struct PendingReward {
    pub points: u64,
    pub tokens: i128,
    pub won_delta: u32,
    pub lost_delta: u32,
    pub bet_delta: u32,
}

} // verus!

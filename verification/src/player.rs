//! What the leaderboard keeps per player, and how a player's statistics and
//! queued rewards are read and written.
use vstd::prelude::*;
use crate::board::LeaderboardContract;
use crate::decay::{decayed, periods_between};
use crate::types::{PendingReward, PlayerStats, StoredStats};

verus! {

/// The records the leaderboard keeps for one player.
#[derive(Clone, Copy, Debug, PartialEq, Eq, Structural)]
pub struct PlayerRecord {
    /// Statistics, once the player has earned anything.
    pub stats: Option<StoredStats>,
    /// Decay epoch the statistics were written in.
    pub stats_epoch: Option<u32>,
    /// Rewards queued and not yet applied.
    pub pending: Option<PendingReward>,
    /// The player was banned by the admin.
    pub banned: bool,
}

/// Which counter a bet outcome adds to.
#[derive(Clone, Copy, Debug, PartialEq, Eq, Structural)]
pub enum BetKind {
    Won,
    Lost,
    Bonus,
}

/// Statistics of a player with nothing on record.
pub open spec fn zero_stats() -> StoredStats {
    StoredStats { points: 0, won_bets: 0, lost_bets: 0, bonus_bets: 0 }
}

/// The reported form of stored statistics.
pub open spec fn reported(s: StoredStats) -> PlayerStats {
    PlayerStats {
        points: s.points,
        total_bets: (s.won_bets + s.lost_bets + s.bonus_bets) as u32,
        won_bets: s.won_bets,
        lost_bets: s.lost_bets,
    }
}

/// An empty queue of rewards.
pub open spec fn no_pending() -> PendingReward {
    PendingReward { points: 0, tokens: 0, won_delta: 0, lost_delta: 0, bet_delta: 0 }
}

impl PlayerRecord {
    /// Nothing stored for the player.
    pub open spec fn empty() -> PlayerRecord {
        PlayerRecord { stats: None, stats_epoch: None, pending: None, banned: false }
    }

    /// The stored statistics, or zero ones.
    pub open spec fn stored(self) -> StoredStats {
        match self.stats {
            Some(s) => s,
            None => zero_stats(),
        }
    }

    /// The statistics in epoch `now`: stored points decayed over the periods
    /// since they were written (none if the epoch is unknown).
    pub open spec fn stats_at(self, now: u32) -> StoredStats {
        let s = self.stored();
        if s.points == 0 {
            s
        } else {
            let written = match self.stats_epoch {
                Some(e) => e,
                None => now,
            };
            StoredStats {
                points: decayed(s.points as nat, periods_between(now, written)) as u64,
                ..s
            }
        }
    }

    /// The queued rewards, or an empty queue.
    pub open spec fn queued(self) -> PendingReward {
        match self.pending {
            Some(p) => p,
            None => no_pending(),
        }
    }

    /// Whether the leaderboard knows anything of the player's statistics.
    pub open spec fn has_stats(self) -> bool {
        self.stats is Some
    }
}

/// Adding `pts` points and one bet of `kind` to `s` stays in range.
pub open spec fn award_in_range(s: StoredStats, pts: u64, kind: BetKind) -> bool {
    &&& s.points + pts <= u64::MAX
    &&& match kind {
        BetKind::Won => s.won_bets < u32::MAX,
        BetKind::Lost => s.lost_bets < u32::MAX,
        BetKind::Bonus => s.bonus_bets < u32::MAX,
    }
}

/// `s` with `pts` points and one bet of `kind` added.
pub open spec fn awarded(s: StoredStats, pts: u64, kind: BetKind) -> StoredStats {
    StoredStats {
        points: (s.points + pts) as u64,
        won_bets: if kind == BetKind::Won { (s.won_bets + 1) as u32 } else { s.won_bets },
        lost_bets: if kind == BetKind::Lost { (s.lost_bets + 1) as u32 } else { s.lost_bets },
        bonus_bets: if kind == BetKind::Bonus { (s.bonus_bets + 1) as u32 } else { s.bonus_bets },
    }
}

/// Queueing a reward on `p` stays in range.
pub open spec fn queue_in_range(p: PendingReward, points: u64, tokens: i128, kind: BetKind) -> bool {
    &&& p.points + points <= u64::MAX
    &&& i128::MIN <= p.tokens + tokens <= i128::MAX
    &&& p.bet_delta < u32::MAX
    &&& kind == BetKind::Won ==> p.won_delta < u32::MAX
    &&& kind == BetKind::Lost ==> p.lost_delta < u32::MAX
}

/// `p` with one more reward queued; a bonus counts as a bet but neither as
/// won nor lost.
pub open spec fn queued_after(p: PendingReward, points: u64, tokens: i128, kind: BetKind) -> PendingReward {
    PendingReward {
        points: (p.points + points) as u64,
        tokens: (p.tokens + tokens) as i128,
        won_delta: if kind == BetKind::Won { (p.won_delta + 1) as u32 } else { p.won_delta },
        lost_delta: if kind == BetKind::Lost { (p.lost_delta + 1) as u32 } else { p.lost_delta },
        bet_delta: (p.bet_delta + 1) as u32,
    }
}

/// Bets of a queue that were neither won nor lost (bonus bets).
pub open spec fn bonus_part(p: PendingReward) -> int {
    if p.bet_delta >= p.won_delta + p.lost_delta {
        p.bet_delta - (p.won_delta + p.lost_delta)
    } else {
        0
    }
}

/// Applying queue `p` to statistics `s` stays in range.
pub open spec fn claim_in_range(s: StoredStats, p: PendingReward) -> bool {
    &&& s.points + p.points <= u64::MAX
    &&& s.won_bets + p.won_delta <= u32::MAX
    &&& s.lost_bets + p.lost_delta <= u32::MAX
    &&& p.won_delta + p.lost_delta <= u32::MAX
    &&& s.bonus_bets + bonus_part(p) <= u32::MAX
}

/// `s` with queue `p` applied.
pub open spec fn claimed(s: StoredStats, p: PendingReward) -> StoredStats {
    StoredStats {
        points: (s.points + p.points) as u64,
        won_bets: (s.won_bets + p.won_delta) as u32,
        lost_bets: (s.lost_bets + p.lost_delta) as u32,
        bonus_bets: (s.bonus_bets + bonus_part(p)) as u32,
    }
}

impl LeaderboardContract {
    /// The player's statistics with points decayed to epoch `now`, as they
    /// stand before an update.
    pub fn stats_for_update(rec: &PlayerRecord, now: u32) -> (r: StoredStats)
        ensures
            r == rec.stats_at(now),
    {
        let mut stored = match rec.stats {
            Some(s) => s,
            None => StoredStats::zero(),
        };
        if stored.points > 0 {
            let written_at: u32 = match rec.stats_epoch {
                Some(e) => e,
                None => now,
            };
            proof {
                crate::decay::lemma_decay_monotone(
                    stored.points as nat,
                    stored.points as nat,
                    periods_between(now, written_at),
                );
            }
            stored.points = Self::decay(stored.points, now.saturating_sub(written_at));
        }
        stored
    }

    /// The player's statistics as reported in epoch `now`.
    pub fn decayed_stats(rec: &PlayerRecord, now: u32) -> (r: PlayerStats)
        requires
            rec.stats_at(now).total() <= u32::MAX,
        ensures
            r == reported(rec.stats_at(now)),
            r.total_bets == rec.stats_at(now).total(),
            r.points == rec.stats_at(now).points,
            r.won_bets == rec.stats_at(now).won_bets,
            r.lost_bets == rec.stats_at(now).lost_bets,
    {
        let stats = Self::stats_for_update(rec, now);
        stats.to_player_stats()
    }

    /// Store `stats` as the player's statistics, written in epoch `now`.
    pub fn commit_stats(rec: &mut PlayerRecord, stats: StoredStats, now: u32)
        ensures
            *final(rec) == (PlayerRecord { stats: Some(stats), stats_epoch: Some(now), ..*old(rec) }),
    {
        rec.stats = Some(stats);
        rec.stats_epoch = Some(now);
    }

    /// Whether awarding `pts` points and one bet of `kind` to the player in
    /// epoch `now` stays in range.
    pub fn award_fits(rec: &PlayerRecord, pts: u64, kind: BetKind, now: u32) -> (r: bool)
        ensures
            r == award_in_range(rec.stats_at(now), pts, kind),
    {
        let s = Self::stats_for_update(rec, now);
        if s.points > u64::MAX - pts {
            return false;
        }
        match kind {
            BetKind::Won => s.won_bets < u32::MAX,
            BetKind::Lost => s.lost_bets < u32::MAX,
            BetKind::Bonus => s.bonus_bets < u32::MAX,
        }
    }

    /// Add `pts` points and one bet of `kind` to `s`.
    pub fn award(s: StoredStats, pts: u64, kind: BetKind) -> (r: StoredStats)
        requires
            award_in_range(s, pts, kind),
        ensures
            r == awarded(s, pts, kind),
            r.points == s.points + pts,
            r.total() == s.total() + 1,
            kind == BetKind::Won ==> r.won_bets == s.won_bets + 1,
            kind == BetKind::Lost ==> r.lost_bets == s.lost_bets + 1,
            kind == BetKind::Bonus ==> r.bonus_bets == s.bonus_bets + 1,
    {
        let mut r = s;
        r.points = r.points + pts;
        match kind {
            BetKind::Won => r.won_bets = r.won_bets + 1,
            BetKind::Lost => r.lost_bets = r.lost_bets + 1,
            BetKind::Bonus => r.bonus_bets = r.bonus_bets + 1,
        }
        r
    }

    /// Whether queueing a reward for the player stays in range.
    pub fn queue_fits(rec: &PlayerRecord, points: u64, tokens: i128, kind: BetKind) -> (r: bool)
        ensures
            r == queue_in_range(rec.queued(), points, tokens, kind),
    {
        let p = match rec.pending {
            Some(p) => p,
            None => PendingReward { points: 0, tokens: 0, won_delta: 0, lost_delta: 0, bet_delta: 0 },
        };
        if p.points > u64::MAX - points {
            return false;
        }
        if tokens >= 0 && p.tokens > i128::MAX - tokens {
            return false;
        }
        if tokens < 0 && p.tokens < i128::MIN - tokens {
            return false;
        }
        if p.bet_delta == u32::MAX {
            return false;
        }
        match kind {
            BetKind::Won => p.won_delta < u32::MAX,
            BetKind::Lost => p.lost_delta < u32::MAX,
            BetKind::Bonus => true,
        }
    }

    /// Queue a reward: add points and tokens, count one more bet, and for a
    /// market reward count it as won or lost.
    pub fn accumulate_pending(rec: &mut PlayerRecord, points: u64, tokens: i128, kind: BetKind)
        requires
            queue_in_range(old(rec).queued(), points, tokens, kind),
        ensures
            *final(rec) == (PlayerRecord {
                pending: Some(queued_after(old(rec).queued(), points, tokens, kind)),
                ..*old(rec)
            }),
            final(rec).queued().points == old(rec).queued().points + points,
            final(rec).queued().tokens == old(rec).queued().tokens + tokens,
            final(rec).queued().bet_delta == old(rec).queued().bet_delta + 1,
            kind == BetKind::Won ==> final(rec).queued().won_delta == old(rec).queued().won_delta + 1,
            kind == BetKind::Lost ==> final(rec).queued().lost_delta == old(rec).queued().lost_delta + 1,
    {
        let mut pending = match rec.pending {
            Some(p) => p,
            None => PendingReward { points: 0, tokens: 0, won_delta: 0, lost_delta: 0, bet_delta: 0 },
        };
        pending.points = pending.points + points;
        pending.tokens = pending.tokens + tokens;
        pending.bet_delta = pending.bet_delta + 1;
        match kind {
            BetKind::Won => pending.won_delta = pending.won_delta + 1,
            BetKind::Lost => pending.lost_delta = pending.lost_delta + 1,
            BetKind::Bonus => {},
        }
        rec.pending = Some(pending);
    }

    /// Whether applying the player's queued rewards in epoch `now` stays in
    /// range.
    pub fn claim_fits(rec: &PlayerRecord, now: u32) -> (r: bool)
        ensures
            r == claim_in_range(rec.stats_at(now), rec.queued()),
    {
        let s = Self::stats_for_update(rec, now);
        let p = match rec.pending {
            Some(p) => p,
            None => PendingReward { points: 0, tokens: 0, won_delta: 0, lost_delta: 0, bet_delta: 0 },
        };
        if s.points > u64::MAX - p.points {
            return false;
        }
        if s.won_bets > u32::MAX - p.won_delta || s.lost_bets > u32::MAX - p.lost_delta {
            return false;
        }
        if p.won_delta > u32::MAX - p.lost_delta {
            return false;
        }
        let extra = p.bet_delta.saturating_sub(p.won_delta + p.lost_delta);
        s.bonus_bets <= u32::MAX - extra
    }

    /// Whether the player's reported bet total fits.
    pub fn stats_fit(rec: &PlayerRecord, now: u32) -> (r: bool)
        ensures
            r == (rec.stats_at(now).total() <= u32::MAX),
    {
        let s = Self::stats_for_update(rec, now);
        s.won_bets as u64 + s.lost_bets as u64 + s.bonus_bets as u64 <= u32::MAX as u64
    }
}

} // verus!

//! The leaderboard's operations: configuration, pausing, rewards from the
//! trusted market and referral contracts, queued rewards, reads, and the
//! admin's remove / ban / reset.
use vstd::prelude::*;
use crate::board::{rebuild_of, same_lookups, LeaderboardContract};
use crate::player::{
    award_in_range, awarded, claim_in_range, claimed, queue_in_range, queued_after, reported,
    BetKind, PlayerRecord,
};
use crate::types::{LeaderboardError, PendingReward, PlayerKey, PlayerStats, StoredStats};
use crate::ranking::{distinct_players, holds_player};
use crate::{EXPECTED_TOKEN_INTERFACE_VERSION, INTERFACE_VERSION, MAX_TOP_PLAYERS};

verus! {

/// A mint the reward token is asked to perform: `amount` tokens to `to`.
#[derive(Clone, Copy, Debug, PartialEq, Eq, Structural)]
pub struct MintOrder {
    pub token: PlayerKey,
    pub to: PlayerKey,
    pub amount: i128,
}

/// What a reward did: the player's new statistics and the mint it asks for.
#[derive(Clone, Copy, Debug, PartialEq, Eq, Structural)]
pub struct Award {
    pub stats: StoredStats,
    pub mint: Option<MintOrder>,
}

/// The first failure of two checks made in order.
pub open spec fn first_err(a: Result<(), LeaderboardError>, b: Result<(), LeaderboardError>) -> Result<
    (),
    LeaderboardError,
> {
    if a is Err {
        a
    } else {
        b
    }
}

/// Whether `caller` is the contract `expected` names.
pub open spec fn caller_check(expected: Option<PlayerKey>, caller: PlayerKey) -> Result<(), LeaderboardError> {
    match expected {
        None => Err(LeaderboardError::NotInitialized),
        Some(k) => if k == caller {
            Ok(())
        } else {
            Err(LeaderboardError::UnauthorizedCaller)
        },
    }
}

/// The record with `stats` written in epoch `now`.
pub open spec fn committed(rec: PlayerRecord, stats: StoredStats, now: u32) -> PlayerRecord {
    PlayerRecord { stats: Some(stats), stats_epoch: Some(now), ..rec }
}

/// The mint asked for when `tokens` are due to `to` from token `token`.
pub open spec fn mint_for(token: Option<PlayerKey>, to: PlayerKey, tokens: i128) -> Option<MintOrder> {
    if tokens > 0 {
        Some(MintOrder { token: token->Some_0, to, amount: tokens })
    } else {
        None
    }
}

impl LeaderboardContract {
    /// The pause flag (unset reads as not paused).
    pub open spec fn paused_flag(&self) -> bool {
        self.paused == Some(true)
    }

    /// The pause check every state-changing call starts with.
    pub open spec fn pause_check(&self) -> Result<(), LeaderboardError> {
        if self.paused_flag() {
            Err(LeaderboardError::ContractPaused)
        } else {
            Ok(())
        }
    }

    /// Whether `admin` is the administrator.
    pub open spec fn admin_check(&self, admin: PlayerKey) -> Result<(), LeaderboardError> {
        match self.admin {
            None => Err(LeaderboardError::NotInitialized),
            Some(a) => if a == admin {
                Ok(())
            } else {
                Err(LeaderboardError::NotAdmin)
            },
        }
    }

    /// Version of this contract's callable interface.
    pub fn interface_version() -> (r: u32)
        ensures
            r == INTERFACE_VERSION,
    {
        INTERFACE_VERSION
    }

    /// Set up the administrator and the two trusted contracts, with an empty
    /// list; refused once an administrator exists.
    pub fn initialize(&mut self, admin: PlayerKey, market_contract: PlayerKey, referral_contract: PlayerKey) -> (r:
        Result<(), LeaderboardError>)
        ensures
            old(self).admin is Some ==> r == Err::<(), LeaderboardError>(
                LeaderboardError::AlreadyInitialized,
            ) && *final(self) == *old(self),
            old(self).admin is None ==> {
                &&& r is Ok
                &&& *final(self) == (LeaderboardContract {
                    admin: Some(admin),
                    market_contract: Some(market_contract),
                    referral_contract: Some(referral_contract),
                    count: 0,
                    min_points: 0,
                    min_slot: 0,
                    seq_counter: 0,
                    ..*old(self)
                })
            },
    {
        if self.admin.is_some() {
            return Err(LeaderboardError::AlreadyInitialized);
        }
        self.admin = Some(admin);
        self.market_contract = Some(market_contract);
        self.referral_contract = Some(referral_contract);
        self.count = 0;
        self.min_points = 0;
        self.min_slot = 0;
        self.seq_counter = 0;
        Ok(())
    }

    /// Check that `admin` is the administrator.
    pub fn require_admin(&self, admin: PlayerKey) -> (r: Result<(), LeaderboardError>)
        ensures
            r == self.admin_check(admin),
    {
        match self.admin {
            None => Err(LeaderboardError::NotInitialized),
            Some(a) => if a == admin {
                Ok(())
            } else {
                Err(LeaderboardError::NotAdmin)
            },
        }
    }

    /// Set the reward token (admin only).
    pub fn set_token_contract(&mut self, admin: PlayerKey, token: PlayerKey) -> (r: Result<
        (),
        LeaderboardError,
    >)
        ensures
            r == old(self).admin_check(admin),
            r is Err ==> *final(self) == *old(self),
            r is Ok ==> *final(self) == (LeaderboardContract { token_contract: Some(token), ..*old(self) }),
    {
        self.require_admin(admin)?;
        self.token_contract = Some(token);
        Ok(())
    }

    /// Same as `set_token_contract`.
    pub fn set_token(&mut self, admin: PlayerKey, token: PlayerKey) -> (r: Result<(), LeaderboardError>)
        ensures
            r == old(self).admin_check(admin),
            r is Err ==> *final(self) == *old(self),
            r is Ok ==> *final(self) == (LeaderboardContract { token_contract: Some(token), ..*old(self) }),
    {
        self.set_token_contract(admin, token)
    }

    /// Pause every state-changing call (admin only).
    pub fn pause(&mut self, admin: PlayerKey) -> (r: Result<(), LeaderboardError>)
        ensures
            r == old(self).admin_check(admin),
            r is Err ==> *final(self) == *old(self),
            r is Ok ==> *final(self) == (LeaderboardContract { paused: Some(true), ..*old(self) }),
    {
        self.require_admin(admin)?;
        self.paused = Some(true);
        Ok(())
    }

    /// Lift a pause (admin only).
    pub fn unpause(&mut self, admin: PlayerKey) -> (r: Result<(), LeaderboardError>)
        ensures
            r == old(self).admin_check(admin),
            r is Err ==> *final(self) == *old(self),
            r is Ok ==> *final(self) == (LeaderboardContract { paused: Some(false), ..*old(self) }),
    {
        self.require_admin(admin)?;
        self.paused = Some(false);
        Ok(())
    }

    pub fn is_paused(&self) -> (r: bool)
        ensures
            r == self.paused_flag(),
    {
        match self.paused {
            Some(p) => p,
            None => false,
        }
    }

    /// Refuse while paused.
    pub fn require_not_paused(&self) -> (r: Result<(), LeaderboardError>)
        ensures
            r == self.pause_check(),
    {
        if self.is_paused() {
            return Err(LeaderboardError::ContractPaused);
        }
        Ok(())
    }

    /// Accept only the market contract as caller.
    pub fn require_market_contract(&self, caller: PlayerKey) -> (r: Result<(), LeaderboardError>)
        ensures
            r == caller_check(self.market_contract, caller),
    {
        match self.market_contract {
            None => Err(LeaderboardError::NotInitialized),
            Some(m) => if m == caller {
                Ok(())
            } else {
                Err(LeaderboardError::UnauthorizedCaller)
            },
        }
    }

    /// Accept only the referral contract as caller.
    pub fn require_referral_contract(&self, caller: PlayerKey) -> (r: Result<(), LeaderboardError>)
        ensures
            r == caller_check(self.referral_contract, caller),
    {
        match self.referral_contract {
            None => Err(LeaderboardError::NotInitialized),
            Some(m) => if m == caller {
                Ok(())
            } else {
                Err(LeaderboardError::UnauthorizedCaller)
            },
        }
    }

    /// Accept the reward token only if it reports the interface version this
    /// contract was built against.
    pub fn require_compatible_token(version: u32) -> (r: Result<(), LeaderboardError>)
        ensures
            r == (if version == EXPECTED_TOKEN_INTERFACE_VERSION {
                Ok::<(), LeaderboardError>(())
            } else {
                Err(LeaderboardError::IncompatibleInterface)
            }),
    {
        if version != EXPECTED_TOKEN_INTERFACE_VERSION {
            return Err(LeaderboardError::IncompatibleInterface);
        }
        Ok(())
    }

    /// The mint of `tokens` to `user`; refused if no token is configured.
    pub fn mint_reward(&self, user: PlayerKey, tokens: i128) -> (r: Result<MintOrder, LeaderboardError>)
        ensures
            r == (match self.token_contract {
                None => Err(LeaderboardError::TokenNotConfigured),
                Some(t) => Ok(MintOrder { token: t, to: user, amount: tokens }),
            }),
    {
        match self.token_contract {
            None => Err(LeaderboardError::TokenNotConfigured),
            Some(t) => Ok(MintOrder { token: t, to: user, amount: tokens }),
        }
    }

    /// Queue a market reward for a player, to be applied when the player
    /// claims; a banned player's reward is dropped.
    pub fn queue_reward(
        &self,
        caller: PlayerKey,
        rec: &mut PlayerRecord,
        points: u64,
        tokens: i128,
        is_winner: bool,
    ) -> (r: Result<(), LeaderboardError>)
        requires
            first_err(self.pause_check(), caller_check(self.market_contract, caller)) is Ok
                && !old(rec).banned ==> queue_in_range(
                old(rec).queued(),
                points,
                tokens,
                if is_winner { BetKind::Won } else { BetKind::Lost },
            ),
        ensures
            r == first_err(self.pause_check(), caller_check(self.market_contract, caller)),
            (r is Err || old(rec).banned) ==> *final(rec) == *old(rec),
            (r is Ok && !old(rec).banned) ==> *final(rec) == (PlayerRecord {
                pending: Some(
                    queued_after(
                        old(rec).queued(),
                        points,
                        tokens,
                        if is_winner { BetKind::Won } else { BetKind::Lost },
                    ),
                ),
                ..*old(rec)
            }),
    {
        self.require_not_paused()?;
        self.require_market_contract(caller)?;
        if rec.banned {
            return Ok(());
        }
        let kind = if is_winner { BetKind::Won } else { BetKind::Lost };
        Self::accumulate_pending(rec, points, tokens, kind);
        Ok(())
    }

    /// Queue a referral bonus for a player: counted as a bet, neither won
    /// nor lost; a banned player's bonus is dropped.
    pub fn queue_bonus_reward(&self, caller: PlayerKey, rec: &mut PlayerRecord, points: u64, tokens: i128) -> (r:
        Result<(), LeaderboardError>)
        requires
            first_err(self.pause_check(), caller_check(self.referral_contract, caller)) is Ok
                && !old(rec).banned ==> queue_in_range(old(rec).queued(), points, tokens, BetKind::Bonus),
        ensures
            r == first_err(self.pause_check(), caller_check(self.referral_contract, caller)),
            (r is Err || old(rec).banned) ==> *final(rec) == *old(rec),
            (r is Ok && !old(rec).banned) ==> *final(rec) == (PlayerRecord {
                pending: Some(queued_after(old(rec).queued(), points, tokens, BetKind::Bonus)),
                ..*old(rec)
            }),
    {
        self.require_not_paused()?;
        self.require_referral_contract(caller)?;
        if rec.banned {
            return Ok(());
        }
        Self::accumulate_pending(rec, points, tokens, BetKind::Bonus);
        Ok(())
    }

    /// Apply the player's queued rewards in epoch `now`: points and bet
    /// counts go into its statistics, the list is updated, the queue is
    /// cleared, and queued tokens are to be minted. Nothing happens without a
    /// queue; nothing is kept if tokens are due and no token is configured.
    pub fn claim_pending_rewards(&mut self, user: PlayerKey, rec: &mut PlayerRecord, now: u32) -> (r: Result<
        Option<MintOrder>,
        LeaderboardError,
    >)
        requires
            old(self).shaped(),
            !old(self).paused_flag() && old(rec).pending is Some ==> claim_in_range(
                old(rec).stats_at(now),
                old(rec).queued(),
            ) && (old(self).seq_counter < u64::MAX || old(self).found_slot(user) is Some),
        ensures
            ({
                let p = old(rec).queued();
                if old(self).paused_flag() {
                    &&& r == Err::<Option<MintOrder>, LeaderboardError>(LeaderboardError::ContractPaused)
                    &&& *final(self) == *old(self)
                    &&& *final(rec) == *old(rec)
                } else if old(rec).pending is None {
                    &&& r == Ok::<Option<MintOrder>, LeaderboardError>(None)
                    &&& *final(self) == *old(self)
                    &&& *final(rec) == *old(rec)
                } else if p.tokens > 0 && old(self).token_contract is None {
                    &&& r == Err::<Option<MintOrder>, LeaderboardError>(LeaderboardError::TokenNotConfigured)
                    &&& *final(self) == *old(self)
                    &&& *final(rec) == *old(rec)
                } else {
                    let s = claimed(old(rec).stats_at(now), p);
                    &&& r == Ok::<Option<MintOrder>, LeaderboardError>(mint_for(old(self).token_contract, user, p.tokens))
                    &&& *final(rec) == (PlayerRecord {
                        stats: Some(s),
                        stats_epoch: Some(now),
                        pending: None,
                        banned: old(rec).banned,
                    })
                    &&& Self::top_updated(*old(self), *final(self), user, s.points, now)
                }
            }),
    {
        self.require_not_paused()?;
        let pending = match rec.pending {
            Some(p) => p,
            None => return Ok(None),
        };
        let mint = if pending.tokens > 0 {
            Some(self.mint_reward(user, pending.tokens)?)
        } else {
            None
        };
        rec.pending = None;
        let mut stored = Self::stats_for_update(rec, now);
        stored.points = stored.points + pending.points;
        stored.won_bets = stored.won_bets + pending.won_delta;
        stored.lost_bets = stored.lost_bets + pending.lost_delta;
        stored.bonus_bets = stored.bonus_bets + pending.bet_delta.saturating_sub(
            pending.won_delta + pending.lost_delta,
        );
        Self::commit_stats(rec, stored, now);
        self.update_top_players(user, stored.points, now);
        Ok(mint)
    }

    /// The player's queued rewards.
    pub fn get_pending_reward(rec: &PlayerRecord) -> (r: Option<PendingReward>)
        ensures
            r == rec.pending,
    {
        rec.pending
    }

    /// Credit a market bet outcome in epoch `now`: points and a won or lost
    /// bet go into the player's statistics and the list is updated. Returns
    /// the new statistics, or `None` for a banned player (nothing changes).
    pub fn add_pts(
        &mut self,
        caller: PlayerKey,
        user: PlayerKey,
        rec: &mut PlayerRecord,
        pts: u64,
        is_won: bool,
        now: u32,
    ) -> (r: Result<Option<StoredStats>, LeaderboardError>)
        requires
            old(self).shaped(),
            first_err(old(self).pause_check(), caller_check(old(self).market_contract, caller)) is Ok
                && !old(rec).banned ==> award_in_range(
                old(rec).stats_at(now),
                pts,
                if is_won { BetKind::Won } else { BetKind::Lost },
            ) && (old(self).seq_counter < u64::MAX || old(self).found_slot(user) is Some),
        ensures
            ({
                let gate = first_err(old(self).pause_check(), caller_check(old(self).market_contract, caller));
                let s = awarded(old(rec).stats_at(now), pts, if is_won { BetKind::Won } else { BetKind::Lost });
                if gate is Err {
                    &&& r == Err::<Option<StoredStats>, LeaderboardError>(gate->Err_0)
                    &&& *final(self) == *old(self)
                    &&& *final(rec) == *old(rec)
                } else if old(rec).banned {
                    &&& r == Ok::<Option<StoredStats>, LeaderboardError>(None)
                    &&& *final(self) == *old(self)
                    &&& *final(rec) == *old(rec)
                } else {
                    &&& r == Ok::<Option<StoredStats>, LeaderboardError>(Some(s))
                    &&& *final(rec) == committed(*old(rec), s, now)
                    &&& Self::top_updated(*old(self), *final(self), user, s.points, now)
                }
            }),
    {
        self.require_not_paused()?;
        self.require_market_contract(caller)?;
        if rec.banned {
            return Ok(None);
        }
        let kind = if is_won { BetKind::Won } else { BetKind::Lost };
        let stored = Self::award(Self::stats_for_update(rec, now), pts, kind);
        Self::commit_stats(rec, stored, now);
        self.update_top_players(user, stored.points, now);
        Ok(Some(stored))
    }

    /// Reward a market bet outcome in epoch `now`: like `add_pts`, refused
    /// for zero points, and asking for `tokens` to be minted to the player if
    /// positive (refused, with nothing kept, if no token is configured).
    /// Returns `None` for a banned player (nothing changes).
    pub fn reward(
        &mut self,
        caller: PlayerKey,
        user: PlayerKey,
        rec: &mut PlayerRecord,
        points: u64,
        tokens: i128,
        is_winner: bool,
        now: u32,
    ) -> (r: Result<Option<Award>, LeaderboardError>)
        requires
            old(self).shaped(),
            first_err(old(self).pause_check(), caller_check(old(self).market_contract, caller)) is Ok
                && points > 0 && !old(rec).banned ==> award_in_range(
                old(rec).stats_at(now),
                points,
                if is_winner { BetKind::Won } else { BetKind::Lost },
            ) && (old(self).seq_counter < u64::MAX || old(self).found_slot(user) is Some),
        ensures
            ({
                let gate = first_err(old(self).pause_check(), caller_check(old(self).market_contract, caller));
                let s = awarded(old(rec).stats_at(now), points, if is_winner { BetKind::Won } else { BetKind::Lost });
                if gate is Err {
                    &&& r == Err::<Option<Award>, LeaderboardError>(gate->Err_0)
                    &&& *final(self) == *old(self)
                    &&& *final(rec) == *old(rec)
                } else if points == 0 {
                    &&& r == Err::<Option<Award>, LeaderboardError>(LeaderboardError::InvalidPoints)
                    &&& *final(self) == *old(self)
                    &&& *final(rec) == *old(rec)
                } else if old(rec).banned {
                    &&& r == Ok::<Option<Award>, LeaderboardError>(None)
                    &&& *final(self) == *old(self)
                    &&& *final(rec) == *old(rec)
                } else if tokens > 0 && old(self).token_contract is None {
                    &&& r == Err::<Option<Award>, LeaderboardError>(LeaderboardError::TokenNotConfigured)
                    &&& *final(self) == *old(self)
                    &&& *final(rec) == *old(rec)
                } else {
                    &&& r == Ok::<Option<Award>, LeaderboardError>(
                        Some(Award { stats: s, mint: mint_for(old(self).token_contract, user, tokens) }),
                    )
                    &&& *final(rec) == committed(*old(rec), s, now)
                    &&& Self::top_updated(*old(self), *final(self), user, s.points, now)
                }
            }),
    {
        self.require_not_paused()?;
        self.require_market_contract(caller)?;
        if points == 0 {
            return Err(LeaderboardError::InvalidPoints);
        }
        if rec.banned {
            return Ok(None);
        }
        let mint = if tokens > 0 {
            Some(self.mint_reward(user, tokens)?)
        } else {
            None
        };
        let kind = if is_winner { BetKind::Won } else { BetKind::Lost };
        let stored = Self::award(Self::stats_for_update(rec, now), points, kind);
        Self::commit_stats(rec, stored, now);
        self.update_top_players(user, stored.points, now);
        Ok(Some(Award { stats: stored, mint }))
    }

    /// Reward a referral bonus in epoch `now`: points and a bonus bet go into
    /// the player's statistics, the list is updated, and positive `tokens`
    /// are to be minted. Refused for zero points; `None` for a banned player.
    pub fn reward_bonus(
        &mut self,
        caller: PlayerKey,
        user: PlayerKey,
        rec: &mut PlayerRecord,
        pts: u64,
        tokens: i128,
        now: u32,
    ) -> (r: Result<Option<Award>, LeaderboardError>)
        requires
            old(self).shaped(),
            first_err(old(self).pause_check(), caller_check(old(self).referral_contract, caller)) is Ok
                && pts > 0 && !old(rec).banned ==> award_in_range(old(rec).stats_at(now), pts, BetKind::Bonus)
                && (old(self).seq_counter < u64::MAX || old(self).found_slot(user) is Some),
        ensures
            ({
                let gate = first_err(old(self).pause_check(), caller_check(old(self).referral_contract, caller));
                let s = awarded(old(rec).stats_at(now), pts, BetKind::Bonus);
                if gate is Err {
                    &&& r == Err::<Option<Award>, LeaderboardError>(gate->Err_0)
                    &&& *final(self) == *old(self)
                    &&& *final(rec) == *old(rec)
                } else if pts == 0 {
                    &&& r == Err::<Option<Award>, LeaderboardError>(LeaderboardError::InvalidPoints)
                    &&& *final(self) == *old(self)
                    &&& *final(rec) == *old(rec)
                } else if old(rec).banned {
                    &&& r == Ok::<Option<Award>, LeaderboardError>(None)
                    &&& *final(self) == *old(self)
                    &&& *final(rec) == *old(rec)
                } else if tokens > 0 && old(self).token_contract is None {
                    &&& r == Err::<Option<Award>, LeaderboardError>(LeaderboardError::TokenNotConfigured)
                    &&& *final(self) == *old(self)
                    &&& *final(rec) == *old(rec)
                } else {
                    &&& r == Ok::<Option<Award>, LeaderboardError>(
                        Some(Award { stats: s, mint: mint_for(old(self).token_contract, user, tokens) }),
                    )
                    &&& *final(rec) == committed(*old(rec), s, now)
                    &&& Self::top_updated(*old(self), *final(self), user, s.points, now)
                }
            }),
    {
        self.require_not_paused()?;
        self.require_referral_contract(caller)?;
        if pts == 0 {
            return Err(LeaderboardError::InvalidPoints);
        }
        if rec.banned {
            return Ok(None);
        }
        let mint = if tokens > 0 {
            Some(self.mint_reward(user, tokens)?)
        } else {
            None
        };
        let stored = Self::award(Self::stats_for_update(rec, now), pts, BetKind::Bonus);
        Self::commit_stats(rec, stored, now);
        self.update_top_players(user, stored.points, now);
        Ok(Some(Award { stats: stored, mint }))
    }

    /// Credit referral bonus points in epoch `now`, counted as a bonus bet.
    /// Refused for zero points; a banned player's bonus is dropped.
    pub fn add_bonus_pts(
        &mut self,
        caller: PlayerKey,
        user: PlayerKey,
        rec: &mut PlayerRecord,
        pts: u64,
        now: u32,
    ) -> (r: Result<(), LeaderboardError>)
        requires
            old(self).shaped(),
            first_err(old(self).pause_check(), caller_check(old(self).referral_contract, caller)) is Ok
                && pts > 0 && !old(rec).banned ==> award_in_range(old(rec).stats_at(now), pts, BetKind::Bonus)
                && (old(self).seq_counter < u64::MAX || old(self).found_slot(user) is Some),
        ensures
            ({
                let gate = first_err(old(self).pause_check(), caller_check(old(self).referral_contract, caller));
                let s = awarded(old(rec).stats_at(now), pts, BetKind::Bonus);
                if gate is Err {
                    &&& r == gate
                    &&& *final(self) == *old(self)
                    &&& *final(rec) == *old(rec)
                } else if pts == 0 {
                    &&& r == Err::<(), LeaderboardError>(LeaderboardError::InvalidPoints)
                    &&& *final(self) == *old(self)
                    &&& *final(rec) == *old(rec)
                } else if old(rec).banned {
                    &&& r is Ok
                    &&& *final(self) == *old(self)
                    &&& *final(rec) == *old(rec)
                } else {
                    &&& r is Ok
                    &&& *final(rec) == committed(*old(rec), s, now)
                    &&& Self::top_updated(*old(self), *final(self), user, s.points, now)
                }
            }),
    {
        self.require_not_paused()?;
        self.require_referral_contract(caller)?;
        if pts == 0 {
            return Err(LeaderboardError::InvalidPoints);
        }
        if rec.banned {
            return Ok(());
        }
        let stored = Self::award(Self::stats_for_update(rec, now), pts, BetKind::Bonus);
        Self::commit_stats(rec, stored, now);
        self.update_top_players(user, stored.points, now);
        Ok(())
    }

    /// Accept a bet notice from the market contract (nothing is stored).
    pub fn record_bet(&self, caller: PlayerKey) -> (r: Result<(), LeaderboardError>)
        ensures
            r == caller_check(self.market_contract, caller),
    {
        self.require_market_contract(caller)
    }

    /// The player's points in epoch `now`.
    pub fn get_points(rec: &PlayerRecord, now: u32) -> (r: u64)
        requires
            rec.stats_at(now).total() <= u32::MAX,
        ensures
            r == rec.stats_at(now).points,
    {
        Self::decayed_stats(rec, now).points
    }

    /// The player's statistics in epoch `now`.
    pub fn get_stats(rec: &PlayerRecord, now: u32) -> (r: PlayerStats)
        requires
            rec.stats_at(now).total() <= u32::MAX,
        ensures
            r == reported(rec.stats_at(now)),
    {
        Self::decayed_stats(rec, now)
    }

    /// Number of ranked players.
    pub fn get_top_player_count(&self) -> (r: u32)
        ensures
            r == self.count,
    {
        self.count
    }

    /// Rebuild the list from every stored entry (see `repair_top_list`).
    pub fn reconcile_top_slots(&mut self, now: u32)
        requires
            old(self).shaped(),
        ensures
            rebuild_of(*old(self), *final(self), now),
    {
        self.repair_top_list(now);
    }

    /// The slot whose storage lifetime is to be extended along with the
    /// player's records: its own slot, if ranked.
    pub fn refresh_player_ttl(&mut self, user: PlayerKey) -> (r: Option<u32>)
        requires
            old(self).shaped(),
        ensures
            final(self).shaped(),
            final(self).config() == old(self).config(),
            final(self).slots@ == old(self).slots@,
            final(self).seqs@ == old(self).seqs@,
            final(self).count == old(self).count,
            final(self).min_points == old(self).min_points,
            final(self).min_slot == old(self).min_slot,
            final(self).seq_counter == old(self).seq_counter,
            same_lookups(*final(self), *old(self)),
            r matches Some(s) ==> old(self).found_slot(user) == Some(s as int),
            r is None <==> old(self).found_slot(user) is None,
            r matches Some(s) ==> final(self).link_view() == old(self).link_view().insert(user, s),
            r is None ==> final(self).link_view() == old(self).link_view().remove(user),
            r matches Some(s) ==> s < MAX_TOP_PLAYERS && (old(self).slots@[s as int] matches Some(e)
                && e.address == user),
            forall|now: u32| old(self).wf(now) ==> final(self).wf(now) && final(self).ranked() == old(self).ranked(),
            (old(self).dense() && distinct_players(old(self).ranked()) && old(self).linked()) ==> (r is Some
                <==> holds_player(old(self).ranked(), user)),
    {
        let found = self.top_slot_entry(user);
        proof {
            assert forall|now: u32| old(self).wf(now) implies self.wf(now) && self.ranked() == old(
                self,
            ).ranked() by {
                assert(self.ranked() =~= old(self).ranked());
                assert forall|i: int| 0 <= i < self.count implies {
                    &&& self.link_view().contains_key(#[trigger] self.entry(i).address)
                    &&& self.link_view()[self.entry(i).address] == i
                } by {
                    assert(self.entry(i) == old(self).entry(i));
                    assert(old(self).link_view()[old(self).entry(i).address] == i);
                    assert(old(self).slots@[i] is Some);
                    if old(self).entry(i).address == user {
                        assert(old(self).found_slot(user) == Some(i));
                    }
                }
            }
            let r = old(self).ranked();
            if old(self).dense() && distinct_players(r) && old(self).linked() {
                if found is Some {
                    let s = found->Some_0.0;
                    if old(self).link_view().contains_key(user) && old(self).link_view()[user] == s {
                        assert(old(self).slots@[s as int] is Some);
                    }
                    assert(s < old(self).count);
                    assert(r[s as int].0.address == user);
                } else if holds_player(r, user) {
                    let j = choose|j: int| 0 <= j < r.len() && (#[trigger] r[j]).0.address == user;
                    assert(old(self).slots@[j] matches Some(f) && f.address == user);
                }
            }
        }
        match found {
            Some((s, _)) => Some(s),
            None => None,
        }
    }

    /// Whether the admin banned the player.
    pub fn is_banned(rec: &PlayerRecord) -> (r: bool)
        ensures
            r == rec.banned,
    {
        rec.banned
    }

    /// Erase a player (admin only): its statistics and queued rewards are
    /// deleted and it leaves the list, which closes up. Refused with
    /// `PlayerNotFound` for a player with neither statistics nor a slot.
    pub fn remove_player(&mut self, admin: PlayerKey, user: PlayerKey, rec: &mut PlayerRecord, now: u32) -> (r:
        Result<(), LeaderboardError>)
        requires
            old(self).shaped(),
        ensures
            old(self).admin_check(admin) is Err ==> r == old(self).admin_check(admin) && *final(self) == *old(
                self,
            ) && *final(rec) == *old(rec),
            old(self).admin_check(admin) is Ok ==> ({
                let found = old(self).found_slot(user) is Some;
                &&& Self::removed_from_list(*old(self), *final(self), user, found, now)
                &&& if !found && old(rec).stats is None {
                        &&& r == Err::<(), LeaderboardError>(LeaderboardError::PlayerNotFound)
                        &&& *final(rec) == *old(rec)
                    } else {
                        &&& r is Ok
                        &&& *final(rec) == (PlayerRecord {
                            stats: None,
                            stats_epoch: None,
                            pending: None,
                            banned: old(rec).banned,
                        })
                    }
            }),
    {
        self.require_admin(admin)?;
        let found = self.remove_from_list(user, now);
        if !found && rec.stats.is_none() {
            return Err(LeaderboardError::PlayerNotFound);
        }
        rec.stats = None;
        rec.stats_epoch = None;
        rec.pending = None;
        Ok(())
    }

    /// Ban a player (admin only): it is marked banned, its statistics and
    /// queued rewards are deleted and it leaves the list. Banning again, or
    /// banning a player never seen, is accepted.
    pub fn ban_player(&mut self, admin: PlayerKey, user: PlayerKey, rec: &mut PlayerRecord, now: u32) -> (r: Result<
        (),
        LeaderboardError,
    >)
        requires
            old(self).shaped(),
        ensures
            r == old(self).admin_check(admin),
            r is Err ==> *final(self) == *old(self) && *final(rec) == *old(rec),
            r is Ok ==> {
                &&& *final(rec) == (PlayerRecord { stats: None, stats_epoch: None, pending: None, banned: true })
                &&& Self::removed_from_list(
                    *old(self),
                    *final(self),
                    user,
                    old(self).found_slot(user) is Some,
                    now,
                )
            },
    {
        self.require_admin(admin)?;
        rec.banned = true;
        rec.stats = None;
        rec.stats_epoch = None;
        rec.pending = None;
        self.remove_from_list(user, now);
        Ok(())
    }

    /// Reset a player (admin only): its points become 0 (bet counts stay)
    /// and it leaves the list. Refused with `PlayerNotFound` for a player
    /// with neither statistics nor a slot.
    pub fn reset_player(&mut self, admin: PlayerKey, user: PlayerKey, rec: &mut PlayerRecord, now: u32) -> (r:
        Result<(), LeaderboardError>)
        requires
            old(self).shaped(),
        ensures
            old(self).admin_check(admin) is Err ==> r == old(self).admin_check(admin) && *final(self) == *old(
                self,
            ) && *final(rec) == *old(rec),
            old(self).admin_check(admin) is Ok ==> ({
                let found = old(self).found_slot(user) is Some;
                &&& Self::removed_from_list(*old(self), *final(self), user, found, now)
                &&& if !found && old(rec).stats is None {
                        &&& r == Err::<(), LeaderboardError>(LeaderboardError::PlayerNotFound)
                        &&& *final(rec) == *old(rec)
                    } else {
                        &&& r is Ok
                        &&& *final(rec) == match old(rec).stats {
                            Some(st) => committed(*old(rec), StoredStats { points: 0, ..st }, now),
                            None => *old(rec),
                        }
                    }
            }),
    {
        self.require_admin(admin)?;
        let found = self.remove_from_list(user, now);
        if !found && rec.stats.is_none() {
            return Err(LeaderboardError::PlayerNotFound);
        }
        if let Some(st) = rec.stats {
            let mut zeroed = st;
            zeroed.points = 0;
            Self::commit_stats(rec, zeroed, now);
        }
        Ok(())
    }
}

} // verus!

use leaderboard::board::LeaderboardContract;
use leaderboard::contract::{Award, MintOrder};
use leaderboard::player::PlayerRecord;
use leaderboard::types::{LeaderboardError, PendingReward, PlayerEntry, PlayerKey, StoredStats};
use leaderboard::{DECAY_PERIOD_LEDGERS, DECAY_ZERO_AFTER_PERIODS, MAX_TOP_PLAYERS, UNRANKED_RANK};

fn key(n: u128) -> PlayerKey {
    PlayerKey(n, 1, 2, 3)
}

fn blank() -> PlayerRecord {
    PlayerRecord { stats: None, stats_epoch: None, pending: None, banned: false }
}

const ADMIN: u128 = 1;
const MARKET: u128 = 2;
const REFERRAL: u128 = 3;
const TOKEN: u128 = 4;

fn fresh() -> LeaderboardContract {
    let mut c = LeaderboardContract::new();
    c.initialize(key(ADMIN), key(MARKET), key(REFERRAL)).unwrap();
    c
}

fn credit(c: &mut LeaderboardContract, rec: &mut PlayerRecord, user: u128, pts: u64, now: u32) {
    c.add_pts(key(MARKET), key(user), rec, pts, true, now).unwrap();
}

fn order_points(c: &LeaderboardContract, now: u32) -> Vec<u64> {
    c.get_top_players(0, 50, now).iter().map(|e| e.points).collect()
}

#[test]
fn decay_keeps_nine_tenths_per_period() {
    assert_eq!(LeaderboardContract::decay(100, 0), 100);
    assert_eq!(LeaderboardContract::decay(100, 1), 90);
    assert_eq!(LeaderboardContract::decay(100, 2), 81);
    assert_eq!(LeaderboardContract::decay(100, 4), 64);
    assert_eq!(LeaderboardContract::decay(0, 5), 0);
    assert_eq!(LeaderboardContract::decay(1, 1), 0);
    assert_eq!(LeaderboardContract::decay(u64::MAX, 1), u64::MAX / 10 * 9 + (u64::MAX % 10) * 9 / 10);
}

#[test]
fn decay_reaches_zero_before_the_cut_off() {
    assert_eq!(DECAY_ZERO_AFTER_PERIODS, 448);
    assert_eq!(LeaderboardContract::decay(u64::MAX, 52), 77_007_001_532_919_444);
    assert_eq!(LeaderboardContract::decay(u64::MAX, 404), 1);
    assert_eq!(LeaderboardContract::decay(u64::MAX, 405), 0);
    assert_eq!(LeaderboardContract::decay(u64::MAX, 448), 0);
    assert_eq!(LeaderboardContract::decay(u64::MAX, 1000), 0);
    assert_eq!(LeaderboardContract::decay(1_000_000, 52), 4170);
}

#[test]
fn epoch_is_ledger_sequence_in_whole_periods() {
    assert_eq!(LeaderboardContract::current_epoch(0), 0);
    assert_eq!(LeaderboardContract::current_epoch(DECAY_PERIOD_LEDGERS - 1), 0);
    assert_eq!(LeaderboardContract::current_epoch(DECAY_PERIOD_LEDGERS), 1);
    assert_eq!(LeaderboardContract::current_epoch(3 * DECAY_PERIOD_LEDGERS + 5), 3);
}

#[test]
fn entry_points_decay_from_the_entry_epoch() {
    let e = PlayerEntry { address: key(9), points: 1000, epoch: 3 };
    assert_eq!(LeaderboardContract::entry_points_now(&e, 3), 1000);
    assert_eq!(LeaderboardContract::entry_points_now(&e, 5), 810);
    assert_eq!(LeaderboardContract::entry_points_now(&e, 1), 1000);
}

#[test]
fn interface_version_is_one() {
    assert_eq!(LeaderboardContract::interface_version(), 1);
}

#[test]
fn initialize_twice_is_refused() {
    let mut c = fresh();
    let r = c.initialize(key(10), key(11), key(12));
    assert_eq!(r, Err(LeaderboardError::AlreadyInitialized));
    assert_eq!(r.unwrap_err().code(), 1);
    assert_eq!(c.admin, Some(key(ADMIN)));
    assert_eq!(c.get_top_player_count(), 0);
}

#[test]
fn admin_calls_before_initialize_are_refused() {
    let mut c = LeaderboardContract::new();
    let r = c.set_token_contract(key(ADMIN), key(TOKEN));
    assert_eq!(r, Err(LeaderboardError::NotInitialized));
    assert_eq!(r.unwrap_err().code(), 2);
    assert_eq!(c.pause(key(ADMIN)), Err(LeaderboardError::NotInitialized));
}

#[test]
fn only_the_admin_configures_the_token() {
    let mut c = fresh();
    assert_eq!(c.set_token(key(50), key(TOKEN)), Err(LeaderboardError::NotAdmin));
    assert_eq!(c.token_contract, None);
    c.set_token(key(ADMIN), key(TOKEN)).unwrap();
    assert_eq!(c.token_contract, Some(key(TOKEN)));
}

#[test]
fn pause_blocks_rewards_until_unpaused() {
    let mut c = fresh();
    assert!(!c.is_paused());
    c.pause(key(ADMIN)).unwrap();
    assert!(c.is_paused());
    let mut rec = blank();
    let r = c.add_pts(key(MARKET), key(20), &mut rec, 10, true, 0);
    assert_eq!(r, Err(LeaderboardError::ContractPaused));
    assert_eq!(r.unwrap_err().code(), 6);
    assert_eq!(rec, blank());
    assert_eq!(c.get_top_player_count(), 0);
    c.unpause(key(ADMIN)).unwrap();
    assert!(!c.is_paused());
    assert_eq!(c.add_pts(key(MARKET), key(20), &mut rec, 10, true, 0).unwrap().unwrap().points, 10);
}

#[test]
fn only_the_trusted_contracts_may_credit() {
    let mut c = fresh();
    let mut rec = blank();
    let r = c.add_pts(key(REFERRAL), key(20), &mut rec, 10, true, 0);
    assert_eq!(r, Err(LeaderboardError::UnauthorizedCaller));
    assert_eq!(r.unwrap_err().code(), 3);
    assert_eq!(
        c.add_bonus_pts(key(MARKET), key(20), &mut rec, 10, 0),
        Err(LeaderboardError::UnauthorizedCaller)
    );
    assert_eq!(c.record_bet(key(MARKET)), Ok(()));
    assert_eq!(c.record_bet(key(REFERRAL)), Err(LeaderboardError::UnauthorizedCaller));
    let uninit = LeaderboardContract::new();
    assert_eq!(uninit.record_bet(key(MARKET)), Err(LeaderboardError::NotInitialized));
}

#[test]
fn reward_with_zero_points_is_invalid() {
    let mut c = fresh();
    let mut rec = blank();
    let r = c.reward(key(MARKET), key(20), &mut rec, 0, 5, true, 0);
    assert_eq!(r, Err(LeaderboardError::InvalidPoints));
    assert_eq!(r.unwrap_err().code(), 4);
    assert_eq!(
        c.reward_bonus(key(REFERRAL), key(20), &mut rec, 0, 5, 0),
        Err(LeaderboardError::InvalidPoints)
    );
    assert_eq!(c.add_bonus_pts(key(REFERRAL), key(20), &mut rec, 0, 0), Err(LeaderboardError::InvalidPoints));
}

#[test]
fn reward_with_tokens_needs_a_token_and_keeps_nothing_without_one() {
    let mut c = fresh();
    let mut rec = blank();
    let r = c.reward(key(MARKET), key(20), &mut rec, 10, 5, true, 0);
    assert_eq!(r, Err(LeaderboardError::TokenNotConfigured));
    assert_eq!(r.unwrap_err().code(), 8);
    assert_eq!(rec, blank());
    assert_eq!(c.get_top_player_count(), 0);

    c.set_token_contract(key(ADMIN), key(TOKEN)).unwrap();
    let award = c.reward(key(MARKET), key(20), &mut rec, 10, 5, false, 0).unwrap().unwrap();
    assert_eq!(award.stats, StoredStats { points: 10, won_bets: 0, lost_bets: 1, bonus_bets: 0 });
    assert_eq!(award.mint, Some(MintOrder { token: key(TOKEN), to: key(20), amount: 5 }));
    let award = c.reward(key(MARKET), key(20), &mut rec, 10, 0, true, 0).unwrap().unwrap();
    assert_eq!(award.mint, None);
    assert_eq!(award.stats.won_bets, 1);
}

#[test]
fn reward_bonus_counts_a_bonus_bet() {
    let mut c = fresh();
    c.set_token_contract(key(ADMIN), key(TOKEN)).unwrap();
    let mut rec = blank();
    let award = c.reward_bonus(key(REFERRAL), key(20), &mut rec, 5, 1, 0).unwrap().unwrap();
    assert_eq!(
        award,
        Award {
            stats: StoredStats { points: 5, won_bets: 0, lost_bets: 0, bonus_bets: 1 },
            mint: Some(MintOrder { token: key(TOKEN), to: key(20), amount: 1 }),
        }
    );
    let stats = LeaderboardContract::get_stats(&rec, 0);
    assert_eq!(stats.total_bets, 1);
    assert_eq!(stats.won_bets, 0);
    assert_eq!(stats.lost_bets, 0);
}

#[test]
fn incompatible_token_version_is_refused() {
    assert_eq!(LeaderboardContract::require_compatible_token(1), Ok(()));
    let r = LeaderboardContract::require_compatible_token(2);
    assert_eq!(r, Err(LeaderboardError::IncompatibleInterface));
    assert_eq!(r.unwrap_err().code(), 7);
}

#[test]
fn queued_rewards_apply_on_claim() {
    let mut c = fresh();
    c.set_token_contract(key(ADMIN), key(TOKEN)).unwrap();
    let mut rec = blank();
    c.queue_reward(key(MARKET), &mut rec, 30, 10, true).unwrap();
    c.queue_reward(key(MARKET), &mut rec, 5, 2, false).unwrap();
    c.queue_bonus_reward(key(REFERRAL), &mut rec, 3, 0).unwrap();
    assert_eq!(
        LeaderboardContract::get_pending_reward(&rec),
        Some(PendingReward { points: 38, tokens: 12, won_delta: 1, lost_delta: 1, bet_delta: 3 })
    );
    assert_eq!(c.get_top_player_count(), 0);
    let mint = c.claim_pending_rewards(key(20), &mut rec, 0).unwrap();
    assert_eq!(mint, Some(MintOrder { token: key(TOKEN), to: key(20), amount: 12 }));
    assert_eq!(rec.pending, None);
    assert_eq!(rec.stats, Some(StoredStats { points: 38, won_bets: 1, lost_bets: 1, bonus_bets: 1 }));
    assert_eq!(c.get_rank(key(20), 0), 1);
    assert_eq!(c.claim_pending_rewards(key(20), &mut rec, 0), Ok(None));
}

#[test]
fn queued_reward_counts_as_a_direct_one() {
    let mut direct_c = fresh();
    let mut direct = blank();
    direct_c.add_pts(key(MARKET), key(20), &mut direct, 40, true, 2).unwrap();
    direct_c.add_bonus_pts(key(REFERRAL), key(20), &mut direct, 7, 2).unwrap();

    let mut queued_c = fresh();
    let mut queued = blank();
    queued_c.queue_reward(key(MARKET), &mut queued, 40, 0, true).unwrap();
    queued_c.queue_bonus_reward(key(REFERRAL), &mut queued, 7, 0).unwrap();
    queued_c.claim_pending_rewards(key(20), &mut queued, 2).unwrap();

    assert_eq!(direct.stats, queued.stats);
    assert_eq!(direct.stats_epoch, queued.stats_epoch);
    assert_eq!(direct_c.get_top_players(0, 10, 2), queued_c.get_top_players(0, 10, 2));
}

#[test]
fn claim_with_tokens_and_no_token_keeps_the_queue() {
    let mut c = fresh();
    let mut rec = blank();
    c.queue_reward(key(MARKET), &mut rec, 30, 10, true).unwrap();
    let before = rec;
    let r = c.claim_pending_rewards(key(20), &mut rec, 0);
    assert_eq!(r, Err(LeaderboardError::TokenNotConfigured));
    assert_eq!(rec, before);
}

#[test]
fn queueing_is_refused_from_the_wrong_caller_or_while_paused() {
    let mut c = fresh();
    let mut rec = blank();
    assert_eq!(c.queue_reward(key(REFERRAL), &mut rec, 1, 0, true), Err(LeaderboardError::UnauthorizedCaller));
    assert_eq!(c.queue_bonus_reward(key(MARKET), &mut rec, 1, 0), Err(LeaderboardError::UnauthorizedCaller));
    c.pause(key(ADMIN)).unwrap();
    assert_eq!(c.queue_reward(key(MARKET), &mut rec, 1, 0, true), Err(LeaderboardError::ContractPaused));
    assert_eq!(c.claim_pending_rewards(key(20), &mut rec, 0), Err(LeaderboardError::ContractPaused));
    assert_eq!(rec, blank());
}

#[test]
fn banned_player_earns_nothing() {
    let mut c = fresh();
    c.set_token_contract(key(ADMIN), key(TOKEN)).unwrap();
    let mut rec = blank();
    c.ban_player(key(ADMIN), key(20), &mut rec, 0).unwrap();
    assert_eq!(c.add_pts(key(MARKET), key(20), &mut rec, 10, true, 0), Ok(None));
    assert_eq!(c.reward(key(MARKET), key(20), &mut rec, 10, 5, true, 0), Ok(None));
    assert_eq!(c.reward_bonus(key(REFERRAL), key(20), &mut rec, 10, 5, 0), Ok(None));
    c.queue_reward(key(MARKET), &mut rec, 10, 5, true).unwrap();
    assert_eq!(rec.pending, None);
    assert_eq!(LeaderboardContract::get_points(&rec, 0), 0);
    assert_eq!(c.get_rank(key(20), 0), UNRANKED_RANK);
}

#[test]
fn tied_players_share_a_rank_and_the_later_one_is_listed_first() {
    let mut c = fresh();
    let (mut a, mut b, mut d) = (blank(), blank(), blank());
    credit(&mut c, &mut a, 20, 100, 0);
    credit(&mut c, &mut b, 21, 100, 0);
    credit(&mut c, &mut d, 22, 50, 0);
    let top = c.get_top_players(0, 10, 0);
    assert_eq!(top[0].address, key(21));
    assert_eq!(top[1].address, key(20));
    assert_eq!(c.get_rank(key(20), 0), 1);
    assert_eq!(c.get_rank(key(21), 0), 1);
    assert_eq!(c.get_rank(key(22), 0), 3);
    assert_eq!(c.get_rank(key(99), 0), UNRANKED_RANK);
}

#[test]
fn improved_player_moves_up() {
    let mut c = fresh();
    let mut recs: Vec<PlayerRecord> = (0..5).map(|_| blank()).collect();
    for i in 0..5u128 {
        credit(&mut c, &mut recs[i as usize], 30 + i, 10 * (i as u64 + 1), 0);
    }
    assert_eq!(order_points(&c, 0), vec![50, 40, 30, 20, 10]);
    credit(&mut c, &mut recs[0], 30, 35, 0);
    assert_eq!(order_points(&c, 0), vec![50, 45, 40, 30, 20]);
    assert_eq!(c.get_rank(key(30), 0), 2);
    assert_eq!(c.get_min_points(0), 20);
    assert_eq!(c.get_min_slot(), 4);
    assert_eq!(c.min_points, 20);
    assert_eq!(c.min_slot, 4);
}

#[test]
fn full_list_admits_only_players_at_least_as_strong_as_the_weakest() {
    let mut c = fresh();
    let mut recs: Vec<PlayerRecord> = Vec::new();
    for i in 0..50u64 {
        let mut r = blank();
        credit(&mut c, &mut r, 100 + i as u128, 100 + i, 0);
        recs.push(r);
    }
    assert_eq!(c.get_top_player_count(), MAX_TOP_PLAYERS);
    assert_eq!(c.get_min_points(0), 100);

    let mut weak = blank();
    credit(&mut c, &mut weak, 500, 99, 0);
    assert_eq!(c.get_rank(key(500), 0), UNRANKED_RANK);
    assert_eq!(c.get_top_player_count(), 50);

    let mut strong = blank();
    credit(&mut c, &mut strong, 501, 120, 0);
    assert_eq!(c.get_rank(key(501), 0), 30);
    assert_eq!(c.get_rank(key(100), 0), UNRANKED_RANK);
    assert!(!c.links.iter().any(|l| l.player == key(100)));
    assert_eq!(c.get_min_points(0), 101);
    let pts = order_points(&c, 0);
    assert_eq!(pts.len(), 50);
    assert!(pts.windows(2).all(|w| w[0] >= w[1]));
}

#[test]
fn promoted_minimum_does_not_leave_a_stale_cache() {
    let mut c = fresh();
    let mut recs: Vec<PlayerRecord> = Vec::new();
    for i in 0..49u64 {
        let mut r = blank();
        credit(&mut c, &mut r, 200 + i as u128, 100 + i, 0);
        recs.push(r);
    }
    credit(&mut c, &mut recs[0], 200, 400, 0);
    let mut b = blank();
    credit(&mut c, &mut b, 300, 200, 0);
    let mut newcomer = blank();
    credit(&mut c, &mut newcomer, 301, 120, 0);
    assert_eq!(c.get_rank(key(200), 0), 1);
    assert_eq!(c.get_rank(key(301), 0), 31);
    assert_eq!(c.get_rank(key(201), 0), UNRANKED_RANK);
    assert_eq!(c.get_min_points(0), 102);
}

#[test]
fn points_decay_with_epochs() {
    let mut c = fresh();
    let mut rec = blank();
    credit(&mut c, &mut rec, 20, 1000, 0);
    assert_eq!(LeaderboardContract::get_points(&rec, 0), 1000);
    assert_eq!(LeaderboardContract::get_points(&rec, 1), 900);
    assert_eq!(LeaderboardContract::get_points(&rec, 52), 0);
    let top = c.get_top_players(0, 1, 2);
    assert_eq!(top[0], PlayerEntry { address: key(20), points: 810, epoch: 2 });
    credit(&mut c, &mut rec, 20, 10, 2);
    assert_eq!(rec.stats.unwrap().points, 820);
    assert_eq!(rec.stats_epoch, Some(2));
    assert_eq!(c.get_min_points(3), 738);
}

#[test]
fn pages_are_bounded() {
    let mut c = fresh();
    assert!(c.get_top_players(0, 10, 0).is_empty());
    for i in 0..12u64 {
        let mut r = blank();
        credit(&mut c, &mut r, 40 + i as u128, 10 + i, 0);
    }
    assert_eq!(c.get_top_players(0, 5, 0).len(), 5);
    assert_eq!(c.get_top_players(10, 5, 0).len(), 2);
    assert_eq!(c.get_top_players(12, 5, 0).len(), 0);
    assert_eq!(c.get_top_players(3, 0, 0).len(), 0);
    assert_eq!(c.get_top_players(0, 1000, 0).len(), 12);
    assert_eq!(c.get_top_players(2, 2, 0).iter().map(|e| e.points).collect::<Vec<u64>>(), vec![19, 18]);
    assert_eq!(c.get_player_count(), 12);
}

#[test]
fn refresh_names_the_players_slot() {
    let mut c = fresh();
    let (mut a, mut b) = (blank(), blank());
    credit(&mut c, &mut a, 20, 10, 0);
    credit(&mut c, &mut b, 21, 20, 0);
    assert_eq!(c.refresh_player_ttl(key(20)), Some(1));
    assert_eq!(c.refresh_player_ttl(key(21)), Some(0));
    assert_eq!(c.refresh_player_ttl(key(22)), None);
}

#[test]
fn reconcile_rebuilds_a_damaged_list() {
    let mut c = fresh();
    for i in 0..4u64 {
        let mut r = blank();
        credit(&mut c, &mut r, 60 + i as u128, 10 * (i + 1), 0);
    }
    c.slots[1] = None;
    c.slots[7] = Some(PlayerEntry { address: key(70), points: 35, epoch: 0 });
    c.reconcile_top_slots(0);
    assert_eq!(c.get_top_player_count(), 4);
    assert_eq!(order_points(&c, 0), vec![40, 35, 20, 10]);
    assert_eq!(c.get_rank(key(70), 0), 2);
    assert!(c.slots[4..].iter().all(|s| s.is_none()));
    assert_eq!(c.get_min_points(0), 10);
}

#[test]
fn full_list_with_an_empty_last_slot_is_rebuilt_before_inserting() {
    let mut c = fresh();
    for i in 0..50u64 {
        let mut r = blank();
        credit(&mut c, &mut r, 100 + i as u128, 100 + i, 0);
    }
    c.slots[49] = None;
    let mut newcomer = blank();
    credit(&mut c, &mut newcomer, 900, 1, 0);
    assert_eq!(c.get_top_player_count(), 50);
    assert_eq!(c.get_rank(key(900), 0), 50);
}

#[test]
fn stale_link_is_dropped_and_relinked_by_scan() {
    let mut c = fresh();
    let (mut a, mut b) = (blank(), blank());
    credit(&mut c, &mut a, 20, 10, 0);
    credit(&mut c, &mut b, 21, 20, 0);
    for l in c.links.iter_mut() {
        if l.player == key(20) {
            l.slot = 0;
        }
    }
    assert_eq!(c.get_rank(key(20), 0), 2);
    assert!(c.links.iter().any(|l| l.player == key(20) && l.slot == 1));
}

#[test]
fn stats_report_total_bets() {
    let mut c = fresh();
    let mut rec = blank();
    c.add_pts(key(MARKET), key(20), &mut rec, 3, true, 0).unwrap();
    c.add_pts(key(MARKET), key(20), &mut rec, 2, false, 0).unwrap();
    c.add_bonus_pts(key(REFERRAL), key(20), &mut rec, 5, 0).unwrap();
    let s = LeaderboardContract::get_stats(&rec, 0);
    assert_eq!((s.points, s.total_bets, s.won_bets, s.lost_bets), (10, 3, 1, 1));
    assert_eq!(LeaderboardContract::get_stats(&blank(), 0).total_bets, 0);
}

#[test]
fn overflow_guards_report_what_would_not_fit() {
    let mut rec = blank();
    rec.stats = Some(StoredStats { points: u64::MAX - 1, won_bets: u32::MAX, lost_bets: 0, bonus_bets: 0 });
    rec.stats_epoch = Some(0);
    assert!(LeaderboardContract::award_fits(&rec, 1, leaderboard::player::BetKind::Lost, 0));
    assert!(!LeaderboardContract::award_fits(&rec, 2, leaderboard::player::BetKind::Lost, 0));
    assert!(!LeaderboardContract::award_fits(&rec, 1, leaderboard::player::BetKind::Won, 0));
    assert!(LeaderboardContract::award_fits(&rec, 2, leaderboard::player::BetKind::Lost, 1));
    assert!(LeaderboardContract::stats_fit(&rec, 0));
    rec.stats = Some(StoredStats { points: 1, won_bets: u32::MAX, lost_bets: 1, bonus_bets: 0 });
    assert!(!LeaderboardContract::stats_fit(&rec, 0));
    let mut q = blank();
    q.pending = Some(PendingReward { points: 0, tokens: i128::MAX, won_delta: 0, lost_delta: 0, bet_delta: 0 });
    assert!(!LeaderboardContract::queue_fits(&q, 0, 1, leaderboard::player::BetKind::Won));
    assert!(LeaderboardContract::queue_fits(&q, 0, -1, leaderboard::player::BetKind::Won));
    assert!(LeaderboardContract::claim_fits(&q, 0));
}

#[test]
fn entries_written_together_keep_their_order_as_they_decay() {
    let a = PlayerEntry { address: key(1), points: 1000, epoch: 4 };
    let b = PlayerEntry { address: key(2), points: 999, epoch: 4 };
    for now in 4..70u32 {
        assert!(LeaderboardContract::entry_points_now(&a, now) >= LeaderboardContract::entry_points_now(&b, now));
    }
}

#[test]
fn entries_written_in_different_epochs_stay_in_order_at_every_epoch() {
    let mut c = fresh();
    let (mut a, mut b) = (blank(), blank());
    credit(&mut c, &mut a, 20, u64::MAX, 0);
    credit(&mut c, &mut b, 21, 1_000_000_000_000_000_000, 1);
    assert_eq!(c.get_rank(key(20), 1), 1);
    assert_eq!(c.get_rank(key(21), 1), 2);
    let top = c.get_top_players(0, 2, 52);
    assert_eq!(top[0].points, 77_007_001_532_919_444);
    for now in 1..600u32 {
        let top = c.get_top_players(0, 2, now);
        assert!(top[0].points >= top[1].points);
    }
}

#[test]
fn welcome_bonus_style_reward_adds_points_without_wins_or_losses() {
    let mut c = fresh();
    c.set_token_contract(key(ADMIN), key(TOKEN)).unwrap();
    let mut rec = blank();
    c.reward_bonus(key(REFERRAL), key(20), &mut rec, 5, 1, 0).unwrap();
    assert_eq!(LeaderboardContract::get_points(&rec, 0), 5);
    let stats = LeaderboardContract::get_stats(&rec, 0);
    assert_eq!(stats.won_bets, 0);
    assert_eq!(stats.lost_bets, 0);
}

#[test]
fn referral_bonus_points_accumulate() {
    let mut c = fresh();
    let mut rec = blank();
    for _ in 0..3 {
        c.add_bonus_pts(key(REFERRAL), key(20), &mut rec, 3, 0).unwrap();
    }
    assert_eq!(LeaderboardContract::get_points(&rec, 0), 9);
    assert_eq!(LeaderboardContract::get_stats(&rec, 0).total_bets, 3);
}

#[test]
fn credit_writes_the_new_points_into_the_entry() {
    let mut c = fresh();
    let mut rec = blank();
    credit(&mut c, &mut rec, 20, 100, 3);
    credit(&mut c, &mut rec, 20, 5, 4);
    let top = c.get_top_players(0, 1, 4);
    assert_eq!(top[0], PlayerEntry { address: key(20), points: 95, epoch: 4 });
    assert_eq!(c.slots[0], Some(PlayerEntry { address: key(20), points: 95, epoch: 4 }));
    assert_eq!(rec.stats.unwrap().points, 95);
}

fn addresses(c: &LeaderboardContract) -> Vec<PlayerKey> {
    c.get_top_players(0, 50, 0).iter().map(|e| e.address).collect()
}

#[test]
fn reconcile_keeps_a_sorted_list_with_ties_as_it_is() {
    let mut c = fresh();
    for (i, pts) in [(40u128, 30u64), (41, 20), (42, 20), (43, 20), (44, 5)] {
        let mut r = blank();
        credit(&mut c, &mut r, i, pts, 0);
    }
    let before = addresses(&c);
    let seqs_before = c.seqs.clone();
    c.reconcile_top_slots(0);
    assert_eq!(addresses(&c), before);
    let slots_once = c.slots.clone();
    let seqs_once = c.seqs.clone();
    for (s, t) in seqs_before.iter().zip(seqs_once.iter()).take(5) {
        assert_eq!(s, t);
    }
    c.reconcile_top_slots(0);
    assert_eq!(c.slots, slots_once);
    assert_eq!(c.seqs, seqs_once);
    assert_eq!(c.get_rank(key(42), 0), 2);
    assert_eq!(c.get_rank(key(44), 0), 5);
}

#[test]
fn refresh_changes_no_rank() {
    let mut c = fresh();
    for i in 0..4u64 {
        let mut r = blank();
        credit(&mut c, &mut r, 60 + i as u128, 10 * (i + 1), 0);
    }
    for l in c.links.iter_mut() {
        if l.player == key(61) {
            l.slot = 0;
        }
    }
    let slots = c.slots.clone();
    let seqs = c.seqs.clone();
    let (min_points, min_slot) = (c.min_points, c.min_slot);
    assert_eq!(c.refresh_player_ttl(key(61)), Some(2));
    assert_eq!(c.refresh_player_ttl(key(99)), None);
    assert_eq!(c.slots, slots);
    assert_eq!(c.seqs, seqs);
    assert_eq!((c.min_points, c.min_slot), (min_points, min_slot));
    assert_eq!(c.get_rank(key(63), 0), 1);
    assert_eq!(c.get_rank(key(61), 0), 3);
    assert_eq!(c.get_rank(key(60), 0), 4);
    assert_eq!(c.get_rank(key(99), 0), UNRANKED_RANK);
}

#[test]
fn bubble_up_moves_an_entry_past_weaker_ones_whatever_the_count() {
    let mut c = LeaderboardContract::new();
    let e = |n: u128, p: u64| PlayerEntry { address: key(n), points: p, epoch: 0 };
    c.slots[0] = Some(e(1, 50));
    c.slots[1] = Some(e(2, 40));
    c.slots[2] = Some(e(3, 30));
    c.slots[3] = Some(e(4, 45));
    c.seqs[3] = Some(9);
    c.count = 2;
    c.bubble_up(e(4, 45), 3, 0);
    assert_eq!(c.count, 2);
    assert_eq!(c.slots[1], Some(e(4, 45)));
    assert_eq!(c.slots[2], Some(e(2, 40)));
    assert_eq!(c.slots[3], Some(e(3, 30)));
    assert_eq!(c.seqs[1], Some(9));
    assert_eq!(c.seqs[3], Some(0));
    assert!(c.links.iter().any(|l| l.player == key(4) && l.slot == 1));
    assert!(c.links.iter().any(|l| l.player == key(3) && l.slot == 3));
}

#[test]
fn bubble_up_into_an_empty_slot_above_shrinks_the_count() {
    let mut c = LeaderboardContract::new();
    let e = |n: u128, p: u64| PlayerEntry { address: key(n), points: p, epoch: 0 };
    c.slots[0] = Some(e(1, 10));
    c.slots[2] = Some(e(2, 20));
    c.seqs[2] = Some(7);
    c.count = 3;
    c.bubble_up(e(2, 20), 2, 0);
    assert_eq!(c.count, 2);
    assert_eq!(c.slots[0], Some(e(2, 20)));
    assert_eq!(c.slots[1], Some(e(1, 10)));
    assert_eq!(c.slots[2], None);
    assert_eq!(c.seqs[0], Some(7));
    assert_eq!(c.seqs[2], None);
}

#[test]
fn entries_written_in_different_epochs_keep_their_order_as_they_decay() {
    let mut c = fresh();
    let (mut early, mut late) = (blank(), blank());
    credit(&mut c, &mut early, 20, 1000, 0);
    credit(&mut c, &mut late, 21, 500, 5);
    for now in 5..DECAY_ZERO_AFTER_PERIODS + 10 {
        let top = c.get_top_players(0, 2, now);
        assert_eq!(top.len(), 2);
        assert!(top[0].points >= top[1].points);
    }
}

#[test]
fn listed_player_is_updated_in_place_with_a_full_stamp_counter() {
    let mut c = fresh();
    let (mut a, mut b) = (blank(), blank());
    credit(&mut c, &mut a, 20, 10, 0);
    credit(&mut c, &mut b, 21, 20, 0);
    c.seq_counter = u64::MAX;
    assert!(c.found_in_list(key(20)));
    assert!(!c.found_in_list(key(22)));
    credit(&mut c, &mut a, 20, 15, 0);
    assert_eq!(c.seq_counter, u64::MAX);
    assert_eq!(order_points(&c, 0), vec![25, 20]);
    assert_eq!(c.get_rank(key(20), 0), 1);
}

#[test]
fn reconcile_picks_the_first_best_entry_at_each_place() {
    let mut c = LeaderboardContract::new();
    let e = |n: u128, p: u64| PlayerEntry { address: key(n), points: p, epoch: 0 };
    c.slots[0] = Some(e(1, 10));
    c.slots[1] = Some(e(2, 20));
    c.slots[2] = Some(e(3, 20));
    c.slots[3] = Some(e(1, 5));
    c.count = 4;
    c.reconcile_top_slots(0);
    assert_eq!(c.slots[0], Some(e(2, 20)));
    assert_eq!(c.slots[1], Some(e(3, 20)));
    assert_eq!(c.slots[2], Some(e(1, 10)));
    assert_eq!(c.slots[3], Some(e(1, 5)));
    assert!(c.links.iter().any(|l| l.player == key(1) && l.slot == 3));
    let once = (c.slots.clone(), c.seqs.clone(), c.links.clone());
    c.reconcile_top_slots(0);
    assert_eq!(c.slots, once.0);
    assert_eq!(c.seqs, once.1);
    assert!(c.links.iter().any(|l| l.player == key(1) && l.slot == 3));
}

use leaderboard::board::LeaderboardContract;
use leaderboard::player::PlayerRecord;
use leaderboard::types::{LeaderboardError, PlayerKey, PlayerStats};
use leaderboard::UNRANKED_RANK;
use std::collections::HashMap;

struct Board {
    state: LeaderboardContract,
    records: HashMap<PlayerKey, PlayerRecord>,
    admin: PlayerKey,
    market: PlayerKey,
    referral: PlayerKey,
    next: u128,
    now: u32,
}

fn blank() -> PlayerRecord {
    PlayerRecord { stats: None, stats_epoch: None, pending: None, banned: false }
}

fn setup() -> Board {
    let mut state = LeaderboardContract::new();
    let admin = PlayerKey(1, 0, 0, 0);
    let market = PlayerKey(2, 0, 0, 0);
    let referral = PlayerKey(3, 0, 0, 0);
    state.initialize(admin, market, referral).unwrap();
    Board { state, records: HashMap::new(), admin, market, referral, next: 100, now: 0 }
}

impl Board {
    fn generate(&mut self) -> PlayerKey {
        self.next += 1;
        PlayerKey(self.next, 7, 0, 0)
    }

    fn record(&self, user: PlayerKey) -> PlayerRecord {
        *self.records.get(&user).unwrap_or(&blank())
    }

    fn add_pts(&mut self, user: PlayerKey, pts: u64, won: bool) {
        let mut rec = self.record(user);
        let market = self.market;
        self.state.add_pts(market, user, &mut rec, pts, won, self.now).unwrap();
        self.records.insert(user, rec);
    }

    fn add_bonus_pts(&mut self, user: PlayerKey, pts: u64) {
        let mut rec = self.record(user);
        let referral = self.referral;
        self.state.add_bonus_pts(referral, user, &mut rec, pts, self.now).unwrap();
        self.records.insert(user, rec);
    }

    fn remove_player(&mut self, admin: PlayerKey, user: PlayerKey) -> Result<(), LeaderboardError> {
        let mut rec = self.record(user);
        let r = self.state.remove_player(admin, user, &mut rec, self.now);
        if r.is_ok() {
            self.records.insert(user, rec);
        }
        r
    }

    fn ban_player(&mut self, admin: PlayerKey, user: PlayerKey) -> Result<(), LeaderboardError> {
        let mut rec = self.record(user);
        let r = self.state.ban_player(admin, user, &mut rec, self.now);
        if r.is_ok() {
            self.records.insert(user, rec);
        }
        r
    }

    fn reset_player(&mut self, admin: PlayerKey, user: PlayerKey) -> Result<(), LeaderboardError> {
        let mut rec = self.record(user);
        let r = self.state.reset_player(admin, user, &mut rec, self.now);
        if r.is_ok() {
            self.records.insert(user, rec);
        }
        r
    }

    fn get_rank(&mut self, user: PlayerKey) -> u32 {
        self.state.get_rank(user, self.now)
    }

    fn get_points(&self, user: PlayerKey) -> u64 {
        LeaderboardContract::get_points(&self.record(user), self.now)
    }

    fn get_stats(&self, user: PlayerKey) -> PlayerStats {
        LeaderboardContract::get_stats(&self.record(user), self.now)
    }

    fn is_banned(&self, user: PlayerKey) -> bool {
        LeaderboardContract::is_banned(&self.record(user))
    }

    fn is_linked(&self, user: PlayerKey) -> bool {
        self.state.links.iter().any(|l| l.player == user)
    }
}

#[test]
fn test_remove_ranked_player_from_top_slot() {
    let mut b = setup();
    let admin = b.admin;
    let alice = b.generate();
    let bob = b.generate();
    b.add_pts(alice, 200, true);
    b.add_pts(bob, 100, true);
    assert_eq!(b.get_rank(alice), 1);
    assert_eq!(b.state.get_top_player_count(), 2);

    b.remove_player(admin, alice).unwrap();

    assert_eq!(b.get_points(alice), 0);
    let stats = b.get_stats(alice);
    assert_eq!(stats.total_bets, 0);

    assert_eq!(b.state.get_top_player_count(), 1);
    assert_eq!(b.get_rank(alice), UNRANKED_RANK);
    assert_eq!(b.get_rank(bob), 1);

    assert!(!b.is_linked(alice));
}

#[test]
fn test_remove_player_at_min_slot_updates_min_cache() {
    let mut b = setup();
    let admin = b.admin;
    let low = b.generate();
    let mid = b.generate();
    let high = b.generate();
    b.add_pts(low, 10, true);
    b.add_pts(mid, 50, true);
    b.add_pts(high, 100, true);
    assert_eq!(b.state.get_top_player_count(), 3);

    b.remove_player(admin, low).unwrap();

    assert_eq!(b.state.get_top_player_count(), 2);
    assert!(b.state.get_min_points(b.now) >= 50);
    assert_eq!(b.get_rank(low), UNRANKED_RANK);
}

#[test]
fn test_remove_mid_ranked_player_compacts_list() {
    let mut b = setup();
    let admin = b.admin;
    let alice = b.generate();
    let bob = b.generate();
    let charlie = b.generate();
    b.add_pts(alice, 300, true);
    b.add_pts(bob, 200, true);
    b.add_pts(charlie, 100, true);

    b.remove_player(admin, bob).unwrap();

    assert_eq!(b.state.get_top_player_count(), 2);
    let top = b.state.get_top_players(0, 20, b.now);
    assert_eq!(top.len(), 2);
    assert_eq!(top[0].address, alice);
    assert_eq!(top[1].address, charlie);
    assert_eq!(b.get_rank(alice), 1);
    assert_eq!(b.get_rank(charlie), 2);
    assert_eq!(b.get_rank(bob), UNRANKED_RANK);
}

#[test]
fn test_remove_unranked_player_erases_only_stats() {
    let mut b = setup();
    let admin = b.admin;
    for i in 0u64..50 {
        let user = b.generate();
        b.add_pts(user, 1000 + i, true);
    }
    let weak = b.generate();
    b.add_pts(weak, 5, false);
    assert_eq!(b.get_rank(weak), UNRANKED_RANK);
    assert_eq!(b.get_points(weak), 5);

    b.remove_player(admin, weak).unwrap();

    assert_eq!(b.get_points(weak), 0);
    assert_eq!(b.state.get_top_player_count(), 50);
}

#[test]
fn test_remove_unknown_player_returns_player_not_found() {
    let mut b = setup();
    let admin = b.admin;
    let ghost = b.generate();
    let r = b.remove_player(admin, ghost);
    assert_eq!(r, Err(LeaderboardError::PlayerNotFound));
    assert_eq!(r.unwrap_err().code(), 9);
}

#[test]
fn test_remove_player_rejects_non_admin() {
    let mut b = setup();
    let alice = b.generate();
    let rando = b.generate();
    b.add_pts(alice, 100, true);
    let r = b.remove_player(rando, alice);
    assert_eq!(r, Err(LeaderboardError::NotAdmin));
    assert_eq!(r.unwrap_err().code(), 5);
}

#[test]
fn test_remove_player_and_re_enter_leaderboard() {
    let mut b = setup();
    let admin = b.admin;
    let alice = b.generate();
    b.add_pts(alice, 500, true);
    assert_eq!(b.get_rank(alice), 1);

    b.remove_player(admin, alice).unwrap();
    assert_eq!(b.get_rank(alice), UNRANKED_RANK);
    assert_eq!(b.get_points(alice), 0);

    b.add_pts(alice, 300, true);
    assert_eq!(b.get_points(alice), 300);
    assert_eq!(b.get_rank(alice), 1);
}

#[test]
fn test_ban_player_sets_flag_and_erases_state() {
    let mut b = setup();
    let admin = b.admin;
    let alice = b.generate();
    b.add_pts(alice, 200, true);
    assert_eq!(b.get_rank(alice), 1);
    assert!(!b.is_banned(alice));

    b.ban_player(admin, alice).unwrap();

    assert!(b.is_banned(alice));
    assert_eq!(b.get_points(alice), 0);
    assert_eq!(b.state.get_top_player_count(), 0);
    assert_eq!(b.get_rank(alice), UNRANKED_RANK);
    assert!(!b.is_linked(alice));
}

#[test]
fn test_ban_player_idempotent() {
    let mut b = setup();
    let admin = b.admin;
    let alice = b.generate();
    b.add_pts(alice, 100, true);

    b.ban_player(admin, alice).unwrap();
    assert!(b.is_banned(alice));

    b.ban_player(admin, alice).unwrap();
    assert!(b.is_banned(alice));
    assert_eq!(b.state.get_top_player_count(), 0);
}

#[test]
fn test_ban_preserves_other_players_in_list() {
    let mut b = setup();
    let admin = b.admin;
    let alice = b.generate();
    let bob = b.generate();
    let charlie = b.generate();
    b.add_pts(alice, 300, true);
    b.add_pts(bob, 200, true);
    b.add_pts(charlie, 100, true);

    b.ban_player(admin, bob).unwrap();

    assert_eq!(b.state.get_top_player_count(), 2);
    assert_eq!(b.get_rank(alice), 1);
    assert_eq!(b.get_rank(charlie), 2);
    assert_eq!(b.get_rank(bob), UNRANKED_RANK);
    assert!(b.is_banned(bob));
}

#[test]
fn test_ban_player_rejects_non_admin() {
    let mut b = setup();
    let alice = b.generate();
    let rando = b.generate();
    b.add_pts(alice, 100, true);
    let r = b.ban_player(rando, alice);
    assert_eq!(r, Err(LeaderboardError::NotAdmin));
    assert_eq!(r.unwrap_err().code(), 5);
}

#[test]
fn test_reset_player_zeroes_points_but_preserves_bet_history() {
    let mut b = setup();
    let admin = b.admin;
    let alice = b.generate();
    b.add_pts(alice, 100, true);
    b.add_pts(alice, 50, false);
    b.add_bonus_pts(alice, 25);

    let before = b.get_stats(alice);
    assert_eq!(before.points, 175);
    assert_eq!(before.won_bets, 1);
    assert_eq!(before.lost_bets, 1);
    assert_eq!(before.total_bets, 3);

    b.reset_player(admin, alice).unwrap();

    let after = b.get_stats(alice);
    assert_eq!(after.points, 0);
    assert_eq!(after.won_bets, 1);
    assert_eq!(after.lost_bets, 1);
    assert_eq!(after.total_bets, 3);
}

#[test]
fn test_reset_removes_player_from_top_list() {
    let mut b = setup();
    let admin = b.admin;
    let alice = b.generate();
    let bob = b.generate();
    b.add_pts(alice, 300, true);
    b.add_pts(bob, 100, true);
    assert_eq!(b.get_rank(alice), 1);

    b.reset_player(admin, alice).unwrap();

    assert_eq!(b.get_rank(alice), UNRANKED_RANK);
    assert_eq!(b.state.get_top_player_count(), 1);
    assert_eq!(b.get_rank(bob), 1);
}

#[test]
fn test_reset_player_allows_re_entry() {
    let mut b = setup();
    let admin = b.admin;
    let alice = b.generate();
    b.add_pts(alice, 500, true);
    assert_eq!(b.get_rank(alice), 1);

    b.reset_player(admin, alice).unwrap();
    assert_eq!(b.get_rank(alice), UNRANKED_RANK);
    assert_eq!(b.get_points(alice), 0);

    b.add_pts(alice, 200, true);
    assert_eq!(b.get_points(alice), 200);
    assert_eq!(b.get_rank(alice), 1);
}

#[test]
fn test_reset_min_slot_player_repairs_min_cache() {
    let mut b = setup();
    let admin = b.admin;
    let low = b.generate();
    let mid = b.generate();
    let high = b.generate();
    b.add_pts(low, 10, true);
    b.add_pts(mid, 50, true);
    b.add_pts(high, 100, true);
    assert_eq!(b.state.get_top_player_count(), 3);

    b.reset_player(admin, low).unwrap();

    assert_eq!(b.state.get_top_player_count(), 2);
    assert!(b.state.get_min_points(b.now) >= 50);
}

#[test]
fn test_reset_unknown_player_returns_player_not_found() {
    let mut b = setup();
    let admin = b.admin;
    let ghost = b.generate();
    let r = b.reset_player(admin, ghost);
    assert_eq!(r, Err(LeaderboardError::PlayerNotFound));
    assert_eq!(r.unwrap_err().code(), 9);
}

#[test]
fn test_reset_player_rejects_non_admin() {
    let mut b = setup();
    let alice = b.generate();
    let rando = b.generate();
    b.add_pts(alice, 100, true);
    let r = b.reset_player(rando, alice);
    assert_eq!(r, Err(LeaderboardError::NotAdmin));
    assert_eq!(r.unwrap_err().code(), 5);
}

#[test]
fn test_full_list_remove_boundary_players() {
    let mut b = setup();
    let admin = b.admin;
    let mut players: Vec<PlayerKey> = Vec::new();
    for i in 1u64..=50 {
        let user = b.generate();
        players.push(user);
        b.add_pts(user, i, true);
    }
    assert_eq!(b.state.get_top_player_count(), 50);

    let rank1_player = players[49];
    let rank25_player = players[25];
    let rank50_player = players[0];

    b.remove_player(admin, rank1_player).unwrap();
    assert_eq!(b.state.get_top_player_count(), 49);
    assert_eq!(b.get_rank(rank1_player), UNRANKED_RANK);

    b.remove_player(admin, rank25_player).unwrap();
    assert_eq!(b.state.get_top_player_count(), 48);
    assert_eq!(b.get_rank(rank25_player), UNRANKED_RANK);

    b.remove_player(admin, rank50_player).unwrap();
    assert_eq!(b.state.get_top_player_count(), 47);
    assert_eq!(b.get_rank(rank50_player), UNRANKED_RANK);
}

#[test]
fn test_remove_then_ban_is_independent() {
    let mut b = setup();
    let admin = b.admin;
    let alice = b.generate();
    let bob = b.generate();
    b.add_pts(alice, 200, true);
    b.add_pts(bob, 100, true);

    b.remove_player(admin, alice).unwrap();
    b.ban_player(admin, bob).unwrap();

    assert_eq!(b.get_rank(alice), UNRANKED_RANK);
    assert!(!b.is_banned(alice));

    assert_eq!(b.get_rank(bob), UNRANKED_RANK);
    assert!(b.is_banned(bob));

    assert_eq!(b.state.get_top_player_count(), 0);
}

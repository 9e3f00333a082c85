//! Properties of the leaderboard that relate several of its operations.
use vstd::prelude::*;
use crate::decay::{
    decayed, epoch_of, entry_points, lemma_decay_monotone, lemma_decayed_without_cut_off, lemma_retain_steps_compose,
    lemma_retain_steps_monotone, periods_between, retain_steps,
};
use crate::player::{
    award_in_range, awarded, bonus_part, claim_in_range, claimed, no_pending, queue_in_range, queued_after,
    reported, BetKind, PlayerRecord,
};
use crate::contract::{mint_for, MintOrder};
use crate::board::{rebuild_of, same_lookups, LeaderboardContract};
use crate::ranking::{
    holds_player, lemma_last_place, lemma_rise, lifted, lifted_at, rise, same_link, sorted_at, Ranked,
};
use crate::types::{PendingReward, PlayerEntry, PlayerKey, StoredStats};
use crate::{DECAY_PERIOD_LEDGERS, MAX_TOP_PLAYERS};

verus! {

/// Decay is uniform: two entries written in the same epoch keep their order
/// in every later epoch.
pub proof fn law_same_epoch_entries_keep_order(a: PlayerEntry, b: PlayerEntry, now: u32)
    requires
        a.epoch == b.epoch,
        a.points >= b.points,
    ensures
        entry_points(a, now) >= entry_points(b, now),
{
    lemma_decay_monotone(b.points as nat, a.points as nat, periods_between(now, a.epoch));
}

/// Two entries written no later than `t1`, in order at `t1`, are still in
/// order at every later epoch `t2`: decay composes, and is monotone.
pub proof fn law_entries_keep_order_as_time_passes(a: PlayerEntry, b: PlayerEntry, t1: u32, t2: u32)
    requires
        a.epoch <= t1,
        b.epoch <= t1,
        t1 <= t2,
        entry_points(a, t1) >= entry_points(b, t1),
    ensures
        entry_points(a, t2) >= entry_points(b, t2),
{
    let d = (t2 - t1) as nat;
    let ka = (t1 - a.epoch) as nat;
    let kb = (t1 - b.epoch) as nat;
    assert(periods_between(t1, a.epoch) == ka);
    assert(periods_between(t1, b.epoch) == kb);
    assert(periods_between(t2, a.epoch) == ka + d);
    assert(periods_between(t2, b.epoch) == kb + d);
    lemma_decayed_without_cut_off(a.points as nat, ka);
    lemma_decayed_without_cut_off(b.points as nat, kb);
    lemma_decayed_without_cut_off(a.points as nat, ka + d);
    lemma_decayed_without_cut_off(b.points as nat, kb + d);
    lemma_retain_steps_compose(a.points as nat, ka, d);
    lemma_retain_steps_compose(b.points as nat, kb, d);
    lemma_retain_steps_monotone(retain_steps(b.points as nat, kb), retain_steps(a.points as nat, ka), d);
}

/// Every ranked entry of `list` was written no later than epoch `t`.
pub open spec fn written_by(list: LeaderboardContract, t: u32) -> bool {
    forall|i: int| 0 <= i < list.count ==> (#[trigger] list.ranked()[i]).0.epoch <= t
}

/// A descending list stays descending as time passes: a list well formed in
/// epoch `t1` whose entries were all written no later than `t1` is well
/// formed in every later epoch `t2`.
pub proof fn law_list_stays_sorted_as_time_passes(list: LeaderboardContract, t1: u32, t2: u32)
    requires
        list.wf(t1),
        written_by(list, t1),
        t1 <= t2,
    ensures
        sorted_at(list.ranked(), t2),
        list.wf(t2),
        written_by(list, t2),
{
    let r = list.ranked();
    assert forall|i: int, j: int| 0 <= i < j < r.len() implies entry_points(#[trigger] r[i].0, t2) >= entry_points(
        #[trigger] r[j].0,
        t2,
    ) by {
        assert(entry_points(r[i].0, t1) >= entry_points(r[j].0, t1));
        law_entries_keep_order_as_time_passes(r[i].0, r[j].0, t1, t2);
    }
}

/// A queue built by queueing rewards counts no more won and lost bets than
/// bets.
pub open spec fn queue_consistent(p: PendingReward) -> bool {
    p.won_delta + p.lost_delta <= p.bet_delta
}

/// Claiming an empty queue leaves statistics as they are.
pub proof fn law_claiming_nothing_changes_nothing(s: StoredStats)
    ensures
        claimed(s, no_pending()) == s,
{
}

/// Queueing keeps a queue consistent.
pub proof fn law_queueing_keeps_queue_consistent(p: PendingReward, points: u64, tokens: i128, kind: BetKind)
    requires
        queue_consistent(p),
        p.bet_delta < u32::MAX,
        kind == BetKind::Won ==> p.won_delta < u32::MAX,
        kind == BetKind::Lost ==> p.lost_delta < u32::MAX,
    ensures
        queue_consistent(queued_after(p, points, tokens, kind)),
{
}

/// A queued reward, once claimed, counts exactly as a direct reward of the
/// same points and bet outcome would: claiming a queue with one more reward
/// equals claiming the shorter queue and then awarding that reward.
pub proof fn law_queued_reward_counts_as_direct(
    s: StoredStats,
    p: PendingReward,
    points: u64,
    tokens: i128,
    kind: BetKind,
)
    requires
        queue_consistent(p),
        p.points + points <= u64::MAX,
        p.bet_delta < u32::MAX,
        kind == BetKind::Won ==> p.won_delta < u32::MAX,
        kind == BetKind::Lost ==> p.lost_delta < u32::MAX,
        s.points + p.points + points <= u64::MAX,
        s.won_bets + p.won_delta + (if kind == BetKind::Won { 1int } else { 0 }) <= u32::MAX,
        s.lost_bets + p.lost_delta + (if kind == BetKind::Lost { 1int } else { 0 }) <= u32::MAX,
        s.bonus_bets + bonus_part(p) + (if kind == BetKind::Bonus { 1int } else { 0 }) <= u32::MAX,
    ensures
        claimed(s, queued_after(p, points, tokens, kind)) == awarded(claimed(s, p), points, kind),
{
}

/// Every element of `r` is still present after one of them moves up.
pub proof fn lemma_lift_keeps_elements(r: Seq<Ranked>, i: int, p: int, m: int)
    requires
        0 <= p <= i < r.len(),
        0 <= m < r.len(),
    ensures
        ({
            let k = if m < p { m } else if m == i { p } else if m < i { m + 1 } else { m };
            0 <= k < r.len() && lifted(r, i, p)[k] == r[m]
        }),
{
}

/// After a player is removed from a well-formed list, the list is still
/// well formed and the player is not in it (so its rank is `UNRANKED_RANK`).
pub proof fn law_removed_player_is_unranked(
    pre: LeaderboardContract,
    post: LeaderboardContract,
    user: PlayerKey,
    found: bool,
    now: u32,
)
    requires
        pre.wf(now),
        LeaderboardContract::removed_from_list(pre, post, user, found, now),
    ensures
        post.wf(now),
        !holds_player(post.ranked(), user),
{
    let r = pre.ranked();
    let c = pre.count as int;
    if holds_player(post.ranked(), user) {
        let j = choose|j: int| 0 <= j < post.ranked().len() && (#[trigger] post.ranked()[j]).0.address == user;
        if found {
            let i = choose|i: int| 0 <= i < c && (#[trigger] r[i]).0.address == user;
            assert(post.ranked() == r.remove(i));
            let j0 = if j < i { j } else { j + 1 };
            assert(post.ranked()[j] == r[j0]);
            assert(r[j0].0.address == user);
        } else {
            assert(post.ranked() == r);
            assert(r[j].0.address == user);
        }
    }
}

/// An update leaves the player in a well-formed list unless the list is
/// full, the player was not in it, and it has fewer points than the weakest
/// entry.
pub proof fn law_updated_player_is_ranked(
    pre: LeaderboardContract,
    post: LeaderboardContract,
    user: PlayerKey,
    new_points: u64,
    now: u32,
)
    requires
        pre.wf(now),
        LeaderboardContract::top_updated(pre, post, user, new_points, now),
        holds_player(pre.ranked(), user) || pre.count < MAX_TOP_PLAYERS || new_points >= entry_points(
            pre.ranked()[pre.count - 1].0,
            now,
        ),
    ensures
        holds_player(post.ranked(), user),
{
    let r = pre.ranked();
    let c = pre.count as int;
    let e = PlayerEntry { address: user, points: new_points, epoch: now };
    if holds_player(r, user) {
        let i = choose|i: int| 0 <= i < c && (#[trigger] r[i]).0.address == user;
        let r1 = r.update(i, (e, r[i].1));
        let p = rise(r1, r1[i], i, now);
        lemma_rise(r1, r1[i], i, now);
        assert(post.ranked() == lifted(r1, i, p));
        assert(post.ranked()[p] == r1[i]);
    } else if c < MAX_TOP_PLAYERS {
        let r1 = r.push((e, (pre.seq_counter + 1) as u64));
        let p = rise(r1, r1[c], c, now);
        lemma_rise(r1, r1[c], c, now);
        assert(post.ranked()[p] == r1[c]);
    } else {
        let r1 = r.update(c - 1, (e, (pre.seq_counter + 1) as u64));
        let p = rise(r1, r1[c - 1], c - 1, now);
        lemma_rise(r1, r1[c - 1], c - 1, now);
        assert(post.ranked()[p] == r1[c - 1]);
    }
}

/// On a full well-formed list an update can push out only the weakest
/// entry, and only for a player with at least as many points as it has now:
/// no ranked player is ever displaced by a weaker one.
pub proof fn law_full_list_evicts_only_the_weakest(
    pre: LeaderboardContract,
    post: LeaderboardContract,
    user: PlayerKey,
    new_points: u64,
    now: u32,
)
    requires
        pre.wf(now),
        LeaderboardContract::top_updated(pre, post, user, new_points, now),
    ensures
        forall|key: PlayerKey|
            holds_player(pre.ranked(), key) && !holds_player(post.ranked(), key) ==> {
                &&& pre.count == MAX_TOP_PLAYERS
                &&& key == pre.ranked()[MAX_TOP_PLAYERS - 1].0.address
                &&& entry_points(pre.ranked()[MAX_TOP_PLAYERS - 1].0, now) <= new_points
            },
{
    let r = pre.ranked();
    let c = pre.count as int;
    let e = PlayerEntry { address: user, points: new_points, epoch: now };
    assert forall|key: PlayerKey|
        holds_player(r, key) && !holds_player(post.ranked(), key) implies {
            &&& pre.count == MAX_TOP_PLAYERS
            &&& key == r[MAX_TOP_PLAYERS - 1].0.address
            &&& entry_points(r[MAX_TOP_PLAYERS - 1].0, now) <= new_points
        } by {
        let j = choose|j: int| 0 <= j < r.len() && (#[trigger] r[j]).0.address == key;
        if holds_player(r, user) {
            let i = choose|i: int| 0 <= i < c && (#[trigger] r[i]).0.address == user;
            let r1 = r.update(i, (e, r[i].1));
            let p = rise(r1, r1[i], i, now);
            lemma_rise(r1, r1[i], i, now);
            lemma_lift_keeps_elements(r1, i, p, j);
            let k = if j < p { j } else if j == i { p } else if j < i { j + 1 } else { j };
            assert(post.ranked()[k].0.address == key);
        } else if c < MAX_TOP_PLAYERS {
            let r1 = r.push((e, (pre.seq_counter + 1) as u64));
            let p = rise(r1, r1[c], c, now);
            lemma_rise(r1, r1[c], c, now);
            lemma_lift_keeps_elements(r1, c, p, j);
            let k = if j < p { j } else if j == c { p } else if j < c { j + 1 } else { j };
            assert(post.ranked()[k].0.address == key);
        } else if (new_points as nat) < entry_points(r[c - 1].0, now) {
            assert(post.ranked()[j].0.address == key);
        } else if j != c - 1 {
            let r1 = r.update(c - 1, (e, (pre.seq_counter + 1) as u64));
            let p = rise(r1, r1[c - 1], c - 1, now);
            lemma_rise(r1, r1[c - 1], c - 1, now);
            lemma_lift_keeps_elements(r1, c - 1, p, j);
            let k = if j < p { j } else if j == c - 1 { p } else if j < c - 1 { j + 1 } else { j };
            assert(post.ranked()[k].0.address == key);
        }
    }
}

/// The list's entry for `user`, if any, is worth what the player's
/// statistics are worth in epoch `now`.
pub open spec fn entry_in_step(list: LeaderboardContract, rec: PlayerRecord, user: PlayerKey, now: u32) -> bool {
    forall|i: int|
        0 <= i < list.count && (#[trigger] list.ranked()[i]).0.address == user ==> entry_points(
            list.ranked()[i].0,
            now,
        ) == rec.stats_at(now).points
}

/// After an update the player's entry, if listed, holds exactly the new
/// points, written in epoch `now`.
pub proof fn law_update_writes_the_new_points(
    pre: LeaderboardContract,
    post: LeaderboardContract,
    user: PlayerKey,
    new_points: u64,
    now: u32,
)
    requires
        pre.wf(now),
        LeaderboardContract::top_updated(pre, post, user, new_points, now),
        post.wf(now),
    ensures
        forall|i: int|
            0 <= i < post.count && (#[trigger] post.ranked()[i]).0.address == user ==> post.ranked()[i].0
                == (PlayerEntry { address: user, points: new_points, epoch: now }),
{
    let r = pre.ranked();
    let c = pre.count as int;
    let e = PlayerEntry { address: user, points: new_points, epoch: now };
    assert forall|i: int|
        0 <= i < post.count && (#[trigger] post.ranked()[i]).0.address == user implies post.ranked()[i].0
        == e by {
        if holds_player(r, user) {
            let k = choose|k: int| 0 <= k < c && (#[trigger] r[k]).0.address == user;
            let r1 = r.update(k, (e, r[k].1));
            let p = rise(r1, r1[k], k, now);
            lemma_rise(r1, r1[k], k, now);
            assert(post.ranked()[p] == r1[k]);
        } else if c < MAX_TOP_PLAYERS {
            let r1 = r.push((e, (pre.seq_counter + 1) as u64));
            let p = rise(r1, r1[c], c, now);
            lemma_rise(r1, r1[c], c, now);
            assert(post.ranked()[p] == r1[c]);
        } else if (new_points as nat) < entry_points(r[c - 1].0, now) {
            assert(post.ranked()[i] == r[i]);
        } else {
            let r1 = r.update(c - 1, (e, (pre.seq_counter + 1) as u64));
            let p = rise(r1, r1[c - 1], c - 1, now);
            lemma_rise(r1, r1[c - 1], c - 1, now);
            assert(post.ranked()[p] == r1[c - 1]);
        }
    }
}

/// Crediting a player keeps the top list well formed, provided the list's
/// entry for the player is in step with the player's statistics (as every
/// credit leaves it): points only ever grow at the moment of a credit, so
/// moving the entry up is enough.
pub proof fn law_credit_keeps_the_list_well_formed(
    pre: LeaderboardContract,
    post: LeaderboardContract,
    rec: PlayerRecord,
    user: PlayerKey,
    pts: u64,
    kind: BetKind,
    now: u32,
)
    requires
        pre.wf(now),
        entry_in_step(pre, rec, user, now),
        award_in_range(rec.stats_at(now), pts, kind),
        LeaderboardContract::top_updated(pre, post, user, awarded(rec.stats_at(now), pts, kind).points, now),
    ensures
        post.wf(now),
{
    let r = pre.ranked();
    let c = pre.count as int;
    if holds_player(r, user) {
        let k = choose|k: int| 0 <= k < c && (#[trigger] r[k]).0.address == user;
        assert(entry_points(r[k].0, now) == rec.stats_at(now).points);
    }
}

/// Rebuilding a well-formed list leaves it as it was: the same entries in
/// the same order, the same count, the same slots and the same reverse index.
pub proof fn law_rebuild_keeps_a_well_formed_list(
    before: LeaderboardContract,
    after: LeaderboardContract,
    now: u32,
)
    requires
        before.wf(now),
        rebuild_of(before, after, now),
    ensures
        after.ranked() == before.ranked(),
        after.count == before.count,
        after.slots@ == before.slots@,
        after.link_view() == before.link_view(),
{
    LeaderboardContract::lemma_gathered_dense(&before, MAX_TOP_PLAYERS as int);
    assert(before.gathered(MAX_TOP_PLAYERS as int) =~= before.ranked());
    lemma_rebuilt_list_keeps_slots_and_links(before, after, now);
}

/// Rebuilding a list that a rebuild left changes nothing: the same entries
/// in the same order with the same stamps, the same count and cache, and the
/// same reverse index.
pub proof fn law_rebuild_twice_changes_nothing(
    first: LeaderboardContract,
    once: LeaderboardContract,
    twice: LeaderboardContract,
    now: u32,
)
    requires
        rebuild_of(first, once, now),
        rebuild_of(once, twice, now),
    ensures
        twice.ranked() == once.ranked(),
        twice.count == once.count,
        twice.slots@ == once.slots@,
        twice.seqs@ == once.seqs@,
        twice.min_points == once.min_points,
        twice.min_slot == once.min_slot,
        twice.link_view() == once.link_view(),
{
    LeaderboardContract::lemma_gathered_dense(&once, MAX_TOP_PLAYERS as int);
    assert(once.gathered(MAX_TOP_PLAYERS as int) =~= once.ranked());
    lemma_rebuilt_list_keeps_slots_and_links(once, twice, now);
    assert forall|k: int| 0 <= k < MAX_TOP_PLAYERS implies #[trigger] twice.seqs@[k] == once.seqs@[k] by {
        if k < once.count {
            assert(twice.ranked()[k] == once.ranked()[k]);
        }
    }
    assert(twice.seqs@ =~= once.seqs@);
}

/// A rebuild of a dense list whose entries it keeps in place keeps its
/// slots, and, where every player was linked to its last slot, its reverse
/// index.
proof fn lemma_rebuilt_list_keeps_slots_and_links(
    before: LeaderboardContract,
    after: LeaderboardContract,
    now: u32,
)
    requires
        before.shaped(),
        before.dense(),
        before.gathered(MAX_TOP_PLAYERS as int) == before.ranked(),
        rebuild_of(before, after, now),
        after.ranked() == before.ranked(),
    ensures
        after.count == before.count,
        after.slots@ == before.slots@,
        before.links_last() ==> after.link_view() == before.link_view(),
        before.wf(now) ==> before.links_last(),
{
    let g = before.gathered(MAX_TOP_PLAYERS as int);
    assert(after.count == before.count);
    assert forall|k: int| 0 <= k < MAX_TOP_PLAYERS implies #[trigger] after.slots@[k] == before.slots@[k] by {
        assert(after.slots@[k] is Some <==> k < after.count);
        assert(before.slots@[k] is Some <==> k < before.count);
        if k < after.count {
            assert(after.ranked()[k] == before.ranked()[k]);
        }
    }
    assert(after.slots@ =~= before.slots@);
    if before.wf(now) {
        assert forall|k: int|
            0 <= k < before.count && (forall|m: int|
                k < m < before.count ==> (#[trigger] before.entry(m)).address != before.entry(k).address)
                implies {
            &&& before.link_view().contains_key(#[trigger] before.entry(k).address)
            &&& before.link_view()[before.entry(k).address] == k
        } by {}
    }
    if before.links_last() {
        assert forall|key: PlayerKey| #[trigger] same_link(after.link_view(), before.link_view(), key) by {
            if holds_player(g, key) {
                lemma_last_place(g, key);
                let k = choose|k: int|
                    0 <= k < g.len() && (#[trigger] g[k]).0.address == key && forall|m: int|
                        k < m < g.len() ==> (#[trigger] g[m]).0.address != key;
                assert(before.ranked()[k].0 == before.entry(k));
                assert(after.ranked()[k].0 == after.entry(k));
                assert forall|m: int| k < m < before.count implies (#[trigger] before.entry(m)).address
                    != before.entry(k).address by {
                    assert(before.ranked()[m].0 == before.entry(m));
                    assert(g[m].0.address != key);
                }
                assert forall|m: int| k < m < after.count implies (#[trigger] after.entry(m)).address
                    != after.entry(k).address by {
                    assert(after.ranked()[m].0 == after.entry(m));
                    assert(before.ranked()[m].0 == before.entry(m));
                    assert(g[m].0.address != key);
                }
            }
        }
        assert forall|key: PlayerKey| after.link_view().contains_key(key) == before.link_view().contains_key(key) by {
            assert(same_link(after.link_view(), before.link_view(), key));
        }
        assert forall|key: PlayerKey| after.link_view().contains_key(key) implies after.link_view()[key]
            == before.link_view()[key] by {
            assert(same_link(after.link_view(), before.link_view(), key));
        }
        assert(after.link_view() =~= before.link_view());
    }
}

/// Two states that answer every lookup alike report every player at the
/// same rank, in every epoch: a refresh of a player's storage lifetime, or a
/// rank lookup itself, leaves every rank as it was.
pub proof fn law_same_lookups_same_ranks(
    a: LeaderboardContract,
    b: LeaderboardContract,
    user: PlayerKey,
    now: u32,
)
    requires
        same_lookups(a, b),
    ensures
        a.rank_of(user, now) == b.rank_of(user, now),
{
    assert(a.found_slot(user) == b.found_slot(user));
}

/// `key` is in `lifted(r, i, p)` exactly when it is in `r`.
proof fn lemma_lift_holds(r: Seq<Ranked>, i: int, p: int, key: PlayerKey)
    requires
        0 <= p <= i < r.len(),
    ensures
        holds_player(lifted(r, i, p), key) <==> holds_player(r, key),
{
    let l = lifted(r, i, p);
    if holds_player(r, key) {
        let m = choose|m: int| 0 <= m < r.len() && (#[trigger] r[m]).0.address == key;
        lemma_lift_keeps_elements(r, i, p, m);
        let k = if m < p { m } else if m == i { p } else if m < i { m + 1 } else { m };
        assert(l[k].0.address == key);
    }
    if holds_player(l, key) {
        let k = choose|k: int| 0 <= k < l.len() && (#[trigger] l[k]).0.address == key;
        let m = if k < p { k } else if k == p { i } else if k <= i { k - 1 } else { k };
        assert(l[k] == lifted_at(r, i, p, k));
        assert(r[m].0.address == key);
    }
}

/// An update on a well-formed list lists exactly the players it listed
/// together with `user`, except that where the list was full and `user` was
/// not in it, exactly one player of least points is left out: `user` itself
/// if it has fewer points than the weakest entry, else that entry.
pub proof fn law_update_lists_the_strongest(
    pre: LeaderboardContract,
    post: LeaderboardContract,
    user: PlayerKey,
    new_points: u64,
    now: u32,
)
    requires
        pre.wf(now),
        LeaderboardContract::top_updated(pre, post, user, new_points, now),
    ensures
        ({
            let r = pre.ranked();
            let w = r[MAX_TOP_PLAYERS - 1].0;
            let full_miss = pre.count == MAX_TOP_PLAYERS && !holds_player(r, user);
            &&& full_miss ==> forall|i: int|
                0 <= i < MAX_TOP_PLAYERS ==> entry_points(w, now) <= entry_points(#[trigger] r[i].0, now)
            &&& forall|key: PlayerKey|
                #[trigger] holds_player(post.ranked(), key) <==> if !full_miss {
                    key == user || holds_player(r, key)
                } else if (new_points as nat) < entry_points(w, now) {
                    holds_player(r, key)
                } else {
                    key == user || (holds_player(r, key) && key != w.address)
                }
        }),
{
    let r = pre.ranked();
    let c = pre.count as int;
    let e = PlayerEntry { address: user, points: new_points, epoch: now };
    let w = r[MAX_TOP_PLAYERS - 1].0;
    if holds_player(r, user) {
        let i = choose|i: int| 0 <= i < c && (#[trigger] r[i]).0.address == user;
        let r1 = r.update(i, (e, r[i].1));
        let p = rise(r1, r1[i], i, now);
        lemma_rise(r1, r1[i], i, now);
        assert forall|key: PlayerKey| holds_player(r1, key) <==> (key == user || holds_player(r, key)) by {
            if holds_player(r, key) {
                let m = choose|m: int| 0 <= m < r.len() && (#[trigger] r[m]).0.address == key;
                assert(r1[m].0.address == key);
            }
            if holds_player(r1, key) {
                let m = choose|m: int| 0 <= m < r1.len() && (#[trigger] r1[m]).0.address == key;
                if m != i {
                    assert(r[m].0.address == key);
                }
            }
            if key == user {
                assert(r1[i].0.address == key);
            }
        }
        assert forall|key: PlayerKey| #[trigger] holds_player(post.ranked(), key) <==> (key == user
            || holds_player(r, key)) by {
            lemma_lift_holds(r1, i, p, key);
        }
    } else if c < MAX_TOP_PLAYERS {
        let r1 = r.push((e, (pre.seq_counter + 1) as u64));
        let p = rise(r1, r1[c], c, now);
        lemma_rise(r1, r1[c], c, now);
        assert forall|key: PlayerKey| holds_player(r1, key) <==> (key == user || holds_player(r, key)) by {
            if holds_player(r, key) {
                let m = choose|m: int| 0 <= m < r.len() && (#[trigger] r[m]).0.address == key;
                assert(r1[m].0.address == key);
            }
            if holds_player(r1, key) {
                let m = choose|m: int| 0 <= m < r1.len() && (#[trigger] r1[m]).0.address == key;
                if m != c {
                    assert(r[m].0.address == key);
                }
            }
            if key == user {
                assert(r1[c].0.address == key);
            }
        }
        assert forall|key: PlayerKey| #[trigger] holds_player(post.ranked(), key) <==> (key == user
            || holds_player(r, key)) by {
            lemma_lift_holds(r1, c, p, key);
        }
    } else {
        assert forall|i: int| 0 <= i < MAX_TOP_PLAYERS implies entry_points(w, now) <= entry_points(
            #[trigger] r[i].0,
            now,
        ) by {
            if i < MAX_TOP_PLAYERS - 1 {
                assert(entry_points(r[i].0, now) >= entry_points(r[MAX_TOP_PLAYERS - 1].0, now));
            }
        }
        if (new_points as nat) < entry_points(r[c - 1].0, now) {
            assert(post.ranked() == r);
        } else {
            let r1 = r.update(c - 1, (e, (pre.seq_counter + 1) as u64));
            let p = rise(r1, r1[c - 1], c - 1, now);
            lemma_rise(r1, r1[c - 1], c - 1, now);
            assert forall|key: PlayerKey| holds_player(r1, key) <==> (key == user || (holds_player(r, key)
                && key != w.address)) by {
                if holds_player(r, key) && key != w.address {
                    let m = choose|m: int| 0 <= m < r.len() && (#[trigger] r[m]).0.address == key;
                    assert(m != c - 1);
                    assert(r1[m].0.address == key);
                }
                if holds_player(r1, key) {
                    let m = choose|m: int| 0 <= m < r1.len() && (#[trigger] r1[m]).0.address == key;
                    if m != c - 1 {
                        assert(r[m].0.address == key);
                        assert(r[m].0.address != r[c - 1].0.address);
                    }
                }
                if key == user {
                    assert(r1[c - 1].0.address == key);
                }
            }
            assert forall|key: PlayerKey| #[trigger] holds_player(post.ranked(), key) <==> (key == user
                || (holds_player(r, key) && key != w.address)) by {
                lemma_lift_holds(r1, c - 1, p, key);
            }
        }
    }
}

/// A score written at `e0`, carried forward unchanged at `e1` and read at
/// `e2` reads as if it had been left alone since `e0`: transacting does not
/// reset a player's decay clock.
pub proof fn law_decay_clock_survives_rewrites(p: u64, e0: u32, e1: u32, e2: u32)
    requires
        e0 <= e1 <= e2,
    ensures
        decayed(decayed(p as nat, (e1 - e0) as nat), (e2 - e1) as nat) == decayed(p as nat, (e2 - e0) as nat),
{
    let a = (e1 - e0) as nat;
    let b = (e2 - e1) as nat;
    lemma_decayed_without_cut_off(p as nat, a);
    lemma_decayed_without_cut_off(p as nat, a + b);
    crate::decay::lemma_retain_steps_bounded(p as nat, a);
    lemma_decayed_without_cut_off(retain_steps(p as nat, a), b);
    lemma_retain_steps_compose(p as nat, a, b);
    assert(a + b == (e2 - e0) as nat);
}

/// Moving an entry up keeps every entry written no later than `t`.
proof fn lemma_lift_written_by(r: Seq<Ranked>, i: int, p: int, t: u32)
    requires
        0 <= p <= i < r.len(),
        forall|m: int| 0 <= m < r.len() ==> (#[trigger] r[m]).0.epoch <= t,
    ensures
        forall|k: int| 0 <= k < r.len() ==> (#[trigger] lifted(r, i, p)[k]).0.epoch <= t,
{
    assert forall|k: int| 0 <= k < r.len() implies (#[trigger] lifted(r, i, p)[k]).0.epoch <= t by {
        let m = if k < p { k } else if k == p { i } else if k <= i { k - 1 } else { k };
        assert(lifted(r, i, p)[k] == lifted_at(r, i, p, k));
        assert(lifted_at(r, i, p, k) == r[m]);
    }
}

/// An update in epoch `now` of a list whose entries were all written by
/// `now` leaves only entries written by `now`: with the list staying well
/// formed, a list kept by updates reads in descending order in every later
/// epoch.
pub proof fn law_update_keeps_entries_written_by(
    pre: LeaderboardContract,
    post: LeaderboardContract,
    user: PlayerKey,
    new_points: u64,
    now: u32,
)
    requires
        pre.wf(now),
        written_by(pre, now),
        LeaderboardContract::top_updated(pre, post, user, new_points, now),
    ensures
        written_by(post, now),
{
    let r = pre.ranked();
    let c = pre.count as int;
    let e = PlayerEntry { address: user, points: new_points, epoch: now };
    if holds_player(r, user) {
        let i = choose|i: int| 0 <= i < c && (#[trigger] r[i]).0.address == user;
        let r1 = r.update(i, (e, r[i].1));
        lemma_rise(r1, r1[i], i, now);
        lemma_lift_written_by(r1, i, rise(r1, r1[i], i, now), now);
    } else if c < MAX_TOP_PLAYERS {
        let r1 = r.push((e, (pre.seq_counter + 1) as u64));
        lemma_rise(r1, r1[c], c, now);
        lemma_lift_written_by(r1, c, rise(r1, r1[c], c, now), now);
    } else if (new_points as nat) < entry_points(r[c - 1].0, now) {
    } else {
        let r1 = r.update(c - 1, (e, (pre.seq_counter + 1) as u64));
        lemma_rise(r1, r1[c - 1], c - 1, now);
        lemma_lift_written_by(r1, c - 1, rise(r1, r1[c - 1], c - 1, now), now);
    }
}

/// Taking a player out of a list whose entries were all written by `t`
/// leaves only entries written by `t`.
pub proof fn law_removal_keeps_entries_written_by(
    pre: LeaderboardContract,
    post: LeaderboardContract,
    user: PlayerKey,
    found: bool,
    now: u32,
    t: u32,
)
    requires
        pre.wf(now),
        written_by(pre, t),
        LeaderboardContract::removed_from_list(pre, post, user, found, now),
    ensures
        written_by(post, t),
{
    let r = pre.ranked();
    let c = pre.count as int;
    if found {
        let i = choose|i: int| 0 <= i < c && (#[trigger] r[i]).0.address == user;
        assert(post.ranked() == r.remove(i));
        assert forall|k: int| 0 <= k < post.count implies (#[trigger] post.ranked()[k]).0.epoch <= t by {
            let m = if k < i { k } else { k + 1 };
            assert(post.ranked()[k] == r[m]);
        }
    }
}

/// Queueing a reward adds its points and its tokens to the queue, whatever
/// its kind, and counts one more bet: one more won bet for a won reward, one
/// more lost bet for a lost one, and neither for a bonus.
pub proof fn law_queueing_adds_the_reward(p: PendingReward, points: u64, tokens: i128, kind: BetKind)
    requires
        queue_in_range(p, points, tokens, kind),
    ensures
        ({
            let q = queued_after(p, points, tokens, kind);
            &&& q.points == p.points + points
            &&& q.tokens == p.tokens + tokens
            &&& q.bet_delta == p.bet_delta + 1
            &&& q.won_delta + q.lost_delta <= p.won_delta + p.lost_delta + 1
            &&& (kind == BetKind::Won ==> q.won_delta == p.won_delta + 1 && q.lost_delta == p.lost_delta)
            &&& (kind == BetKind::Lost ==> q.lost_delta == p.lost_delta + 1 && q.won_delta == p.won_delta)
            &&& (kind == BetKind::Bonus ==> q.won_delta == p.won_delta && q.lost_delta == p.lost_delta)
        }),
{
}

/// Two rewards queued on an empty queue hold the sum of their points and of
/// their tokens, and a claim with a token configured mints exactly that sum
/// of tokens to the player: no queued token is lost, whatever the kinds.
pub proof fn law_claim_mints_every_queued_token(
    token: PlayerKey,
    user: PlayerKey,
    points1: u64,
    tokens1: i128,
    kind1: BetKind,
    points2: u64,
    tokens2: i128,
    kind2: BetKind,
)
    requires
        queue_in_range(no_pending(), points1, tokens1, kind1),
        queue_in_range(queued_after(no_pending(), points1, tokens1, kind1), points2, tokens2, kind2),
    ensures
        ({
            let q = queued_after(queued_after(no_pending(), points1, tokens1, kind1), points2, tokens2, kind2);
            &&& q.points == points1 + points2
            &&& q.tokens == tokens1 + tokens2
            &&& q.bet_delta == 2
            &&& tokens1 + tokens2 > 0 ==> mint_for(Some(token), user, q.tokens) == Some(
                MintOrder { token, to: user, amount: (tokens1 + tokens2) as i128 },
            )
            &&& tokens1 + tokens2 <= 0 ==> mint_for(Some(token), user, q.tokens) is None
        }),
{
    law_queueing_adds_the_reward(no_pending(), points1, tokens1, kind1);
    law_queueing_adds_the_reward(queued_after(no_pending(), points1, tokens1, kind1), points2, tokens2, kind2);
}

/// Crediting a bet adds its points and exactly one bet: one more of its own
/// kind, the other counts unchanged.
pub proof fn law_award_counts_one_bet(s: StoredStats, pts: u64, kind: BetKind)
    requires
        award_in_range(s, pts, kind),
    ensures
        ({
            let a = awarded(s, pts, kind);
            &&& a.points == s.points + pts
            &&& a.total() == s.total() + 1
            &&& a.won_bets >= s.won_bets && a.lost_bets >= s.lost_bets && a.bonus_bets >= s.bonus_bets
            &&& (kind == BetKind::Won ==> a.won_bets == s.won_bets + 1)
            &&& (kind == BetKind::Lost ==> a.lost_bets == s.lost_bets + 1)
            &&& (kind == BetKind::Bonus ==> a.bonus_bets == s.bonus_bets + 1)
        }),
{
}

/// Two won bets credited one after the other count as two won bets and two
/// bets in all, with both bets' points.
pub proof fn law_two_wins_count_twice(s: StoredStats, pts1: u64, pts2: u64)
    requires
        award_in_range(s, pts1, BetKind::Won),
        award_in_range(awarded(s, pts1, BetKind::Won), pts2, BetKind::Won),
    ensures
        ({
            let a = awarded(awarded(s, pts1, BetKind::Won), pts2, BetKind::Won);
            &&& a.won_bets == s.won_bets + 2
            &&& a.total() == s.total() + 2
            &&& a.points == s.points + pts1 + pts2
        }),
{
    law_award_counts_one_bet(s, pts1, BetKind::Won);
    law_award_counts_one_bet(awarded(s, pts1, BetKind::Won), pts2, BetKind::Won);
}

/// Claiming a queue adds all of it: its points, its won and lost bets, and
/// its bets in all.
pub proof fn law_claim_adds_the_queue(s: StoredStats, p: PendingReward)
    requires
        claim_in_range(s, p),
        p.bet_delta >= p.won_delta + p.lost_delta,
    ensures
        ({
            let c = claimed(s, p);
            &&& c.points == s.points + p.points
            &&& c.won_bets == s.won_bets + p.won_delta
            &&& c.lost_bets == s.lost_bets + p.lost_delta
            &&& c.total() == s.total() + p.bet_delta
        }),
{
}

/// The reported statistics count every bet: the total is the sum of won,
/// lost and bonus bets, and points, won and lost bets are reported as
/// stored.
pub proof fn law_reported_total_counts_every_bet(s: StoredStats)
    requires
        s.total() <= u32::MAX,
    ensures
        reported(s).total_bets == s.won_bets + s.lost_bets + s.bonus_bets,
        reported(s).total_bets >= reported(s).won_bets + reported(s).lost_bets,
        reported(s).points == s.points,
        reported(s).won_bets == s.won_bets,
        reported(s).lost_bets == s.lost_bets,
{
}

/// The epoch of a ledger sequence number is the number of whole decay
/// periods since ledger 0.
pub proof fn law_epoch_counts_whole_periods(ledger_sequence: u32)
    ensures
        epoch_of(ledger_sequence) * DECAY_PERIOD_LEDGERS <= ledger_sequence,
        ledger_sequence < (epoch_of(ledger_sequence) + 1) * DECAY_PERIOD_LEDGERS,
{
    vstd::arithmetic::div_mod::lemma_fundamental_div_mod(ledger_sequence as int, DECAY_PERIOD_LEDGERS as int);
}

/// The epoch never goes back as the ledger advances, and advances by one
/// every `DECAY_PERIOD_LEDGERS` ledgers.
pub proof fn law_epoch_never_decreases(s1: u32, s2: u32)
    requires
        s1 <= s2,
    ensures
        epoch_of(s1) <= epoch_of(s2),
        s2 - s1 >= DECAY_PERIOD_LEDGERS ==> epoch_of(s1) < epoch_of(s2),
{
    law_epoch_counts_whole_periods(s1);
    law_epoch_counts_whole_periods(s2);
    if epoch_of(s1) > epoch_of(s2) {
        assert((epoch_of(s2) + 1) * DECAY_PERIOD_LEDGERS <= epoch_of(s1) * DECAY_PERIOD_LEDGERS) by (nonlinear_arith)
            requires
                epoch_of(s2) + 1 <= epoch_of(s1),
        ;
    }
    if s2 - s1 >= DECAY_PERIOD_LEDGERS && epoch_of(s1) >= epoch_of(s2) {
        assert(epoch_of(s2) * DECAY_PERIOD_LEDGERS <= epoch_of(s1) * DECAY_PERIOD_LEDGERS) by (nonlinear_arith)
            requires
                epoch_of(s2) <= epoch_of(s1),
        ;
    }
}

/// Each idle period keeps nine tenths of a score, rounded down, and no
/// period keeps all of it: a score reads in full when no period has passed.
pub proof fn law_decay_takes_a_tenth_each_period(p: u64, k: nat)
    ensures
        decayed(p as nat, 0) == p,
        decayed(p as nat, k + 1) == decayed(p as nat, k) * 9 / 10,
        decayed(p as nat, k + 1) <= decayed(p as nat, k),
{
    lemma_decayed_without_cut_off(p as nat, k);
    lemma_decayed_without_cut_off(p as nat, k + 1);
    lemma_decayed_without_cut_off(p as nat, 0);
    assert(retain_steps(p as nat, (k + 1) as nat) == crate::decay::retain_once(retain_steps(p as nat, k)));
    crate::decay::lemma_retain_once_monotone(retain_steps(p as nat, k), retain_steps(p as nat, k));
}

/// A player's statistics read in the epoch they were written give the stored
/// points; read later they give no more, one period later nine tenths of
/// them, and the bet counts never change with time.
pub proof fn law_stats_decay_from_their_write(rec: PlayerRecord, written: u32, now1: u32, now2: u32)
    requires
        rec.stats_epoch == Some(written),
        written <= now1 <= now2,
    ensures
        rec.stats_at(written).points == rec.stored().points,
        rec.stats_at(now2).points <= rec.stats_at(now1).points,
        now1 == written + 1 ==> rec.stats_at(now1).points == rec.stored().points * 9 / 10,
        rec.stats_at(now2).won_bets == rec.stored().won_bets,
        rec.stats_at(now2).lost_bets == rec.stored().lost_bets,
        rec.stats_at(now2).bonus_bets == rec.stored().bonus_bets,
{
    let p = rec.stored().points;
    law_decay_takes_a_tenth_each_period(p, 0);
    crate::decay::lemma_decay_antitone_in_periods(p as nat, (now1 - written) as nat, (now2 - written) as nat);
    crate::decay::lemma_decay_monotone(p as nat, p as nat, (now1 - written) as nat);
    crate::decay::lemma_decay_monotone(p as nat, p as nat, (now2 - written) as nat);
}

} // verus!

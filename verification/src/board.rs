//! The top list: `MAX_TOP_PLAYERS` ranked slots kept in descending order of
//! decayed points, with an insertion stamp per slot that breaks ties, a
//! reverse index from player to slot, and a cache of the weakest entry.
use vstd::prelude::*;
use crate::decay::entry_points;
use crate::links::{link_get, link_map, link_remove, link_set, links_distinct, SlotLink};
use crate::types::{PlayerEntry, PlayerKey};
use crate::ranking::{
    beats, distinct_players, holds_player, lemma_lift_distinct, lemma_lift_sorted, lemma_rise,
    lifted, lifted_at, rise, same_link, sorted_at, Ranked, is_permutation, reorders, lemma_rise_prefix,
    lemma_reorders_distinct, first_index, lemma_first_index_none, lemma_first_index_found, first_best,
    selection_sorted,
};
use crate::{MAX_PAGE_SIZE, MAX_TOP_PLAYERS, UNRANKED_RANK};

verus! {

/// The entries of slots `lo..hi` as a page hands them out: stored slots
/// only, each valued in epoch `now` and stamped with it.
pub open spec fn page_of(slots: Seq<Option<PlayerEntry>>, lo: int, hi: int, now: u32) -> Seq<PlayerEntry>
    decreases hi - lo,
{
    if hi <= lo {
        Seq::empty()
    } else {
        match slots[hi - 1] {
            Some(e) => page_of(slots, lo, hi - 1, now).push(
                PlayerEntry { address: e.address, points: entry_points(e, now) as u64, epoch: now },
            ),
            None => page_of(slots, lo, hi - 1, now),
        }
    }
}

/// Everything the leaderboard keeps outside per-player records: its
/// configuration and the top list.
pub struct LeaderboardContract {
    /// The administrator, once initialised.
    pub admin: Option<PlayerKey>,
    /// The market contract allowed to report bet outcomes.
    pub market_contract: Option<PlayerKey>,
    /// The referral contract allowed to award bonuses.
    pub referral_contract: Option<PlayerKey>,
    /// The reward token, once configured.
    pub token_contract: Option<PlayerKey>,
    /// The pause flag, if ever set.
    pub paused: Option<bool>,
    /// Slot `i` of the list (`None` where nothing is stored).
    pub slots: Vec<Option<PlayerEntry>>,
    /// Insertion stamp of slot `i`; a missing stamp reads as 0.
    pub seqs: Vec<Option<u64>>,
    /// Number of ranked players.
    pub count: u32,
    /// Cached points of the weakest ranked entry.
    pub min_points: u64,
    /// Cached slot of the weakest ranked entry.
    pub min_slot: u32,
    /// Last insertion stamp handed out.
    pub seq_counter: u64,
    /// Reverse index of the players this operation may read or write.
    pub links: Vec<SlotLink>,
}

/// Whether slot `i` holds `user`.
pub open spec fn holder_at(slots: Seq<Option<PlayerEntry>>, user: PlayerKey) -> spec_fn(int) -> bool {
    |i: int| slots[i] matches Some(f) && f.address == user
}

/// Whether slot `i` holds an entry worth `pts` points in epoch `now`.
pub open spec fn worth_at(slots: Seq<Option<PlayerEntry>>, pts: int, now: u32) -> spec_fn(int) -> bool {
    |i: int| slots[i] matches Some(g) && entry_points(g, now) == pts
}

/// `v` with its element at `s` taken out and the elements after it, up to
/// `c`, moved up one place; place `c - 1` is left empty.
pub open spec fn closed_up<T>(v: Seq<Option<T>>, s: int, c: int) -> Seq<Option<T>> {
    Seq::new(
        v.len(),
        |k: int|
            if k < s {
                v[k]
            } else if k < c - 1 {
                v[k + 1]
            } else if k == c - 1 {
                None
            } else {
                v[k]
            },
    )
}

/// `a` and `b` answer every lookup alike: the same slots and count, and
/// every player found in the same slot.
pub open spec fn same_lookups(a: LeaderboardContract, b: LeaderboardContract) -> bool {
    &&& a.slots@ == b.slots@
    &&& a.count == b.count
    &&& forall|key: PlayerKey| #[trigger] a.found_slot(key) == b.found_slot(key)
}

/// What a rebuild of the list in epoch `now` leaves in `post`, given the
/// state `pre` before it: every stored entry once, densely, best first (in
/// their stored order where that order is already descending), stamps moved
/// along, a fresh cache, and links for the players it stored.
pub open spec fn rebuild_of(pre: LeaderboardContract, post: LeaderboardContract, now: u32) -> bool {
    let g = pre.gathered(MAX_TOP_PLAYERS as int);
    &&& post.shaped()
    &&& post.config() == pre.config()
    &&& post.count == g.len()
    &&& post.dense()
    &&& sorted_at(post.ranked(), now)
    &&& reorders(post.ranked(), g)
    &&& sorted_at(g, now) ==> post.ranked() == g
    &&& post.ranked() == selection_sorted(g, 0, now)
    &&& post.links_last()
    &&& forall|k: int|
        0 <= k < MAX_TOP_PLAYERS ==> #[trigger] post.seqs@[k] == (if k < post.count {
            Some(post.stamp(k))
        } else {
            None
        })
    &&& post.min_cache_fresh(now)
    &&& post.seq_counter == pre.seq_counter
    &&& distinct_players(g) ==> post.wf(now)
    &&& forall|key: PlayerKey| !holds_player(g, key) ==> same_link(post.link_view(), pre.link_view(), key)
}

impl LeaderboardContract {
    /// The stamp stored for slot `i`.
    pub open spec fn stamp(&self, i: int) -> u64 {
        match self.seqs@[i] {
            Some(s) => s,
            None => 0,
        }
    }

    /// The entry stored in slot `i` (meaningful where one is stored).
    pub open spec fn entry(&self, i: int) -> PlayerEntry {
        self.slots@[i]->Some_0
    }

    /// The stored entries of slots `0..k`, in slot order, with their stamps.
    pub open spec fn gathered(&self, k: int) -> Seq<Ranked>
        decreases k,
    {
        if k <= 0 {
            Seq::empty()
        } else {
            match self.slots@[k - 1] {
                Some(e) => self.gathered(k - 1).push((e, self.stamp(k - 1))),
                None => self.gathered(k - 1),
            }
        }
    }

    /// The reverse index as a map.
    pub open spec fn link_view(&self) -> Map<PlayerKey, u32> {
        link_map(self.links@)
    }

    /// The configuration part of the state.
    pub open spec fn config(&self) -> (
        Option<PlayerKey>,
        Option<PlayerKey>,
        Option<PlayerKey>,
        Option<PlayerKey>,
        Option<bool>,
    ) {
        (self.admin, self.market_contract, self.referral_contract, self.token_contract, self.paused)
    }

    /// Sizes every operation relies on.
    pub open spec fn shaped(&self) -> bool {
        &&& self.slots@.len() == MAX_TOP_PLAYERS
        &&& self.seqs@.len() == MAX_TOP_PLAYERS
        &&& self.count <= MAX_TOP_PLAYERS
        &&& links_distinct(self.links@)
    }

    /// Exactly the first `count` slots are occupied.
    pub open spec fn dense(&self) -> bool {
        forall|i: int| 0 <= i < MAX_TOP_PLAYERS ==> (#[trigger] self.slots@[i] is Some <==> i < self.count)
    }

    /// The ranked entries, best first, with their stamps.
    pub open spec fn ranked(&self) -> Seq<Ranked> {
        Seq::new(self.count as nat, |i: int| (self.entry(i), self.stamp(i)))
    }

    /// The entries of slots `0..k` with their stamps (meaningful where all
    /// of them are stored).
    pub open spec fn top(&self, k: int) -> Seq<Ranked> {
        Seq::new(k as nat, |i: int| (self.entry(i), self.stamp(i)))
    }

    /// Every slot below `k` holds an entry.
    pub open spec fn filled(&self, k: int) -> bool {
        forall|i: int| 0 <= i < k ==> (#[trigger] self.slots@[i]) is Some
    }

    /// The slot a lookup of `user` settles on: its linked slot where that
    /// slot holds it, otherwise the first of the ranked slots holding it.
    pub open spec fn found_slot(&self, user: PlayerKey) -> Option<int> {
        let lv = self.link_view();
        if lv.contains_key(user) && lv[user] < MAX_TOP_PLAYERS && (self.slots@[lv[user] as int] matches Some(
            f,
        ) && f.address == user) {
            Some(lv[user] as int)
        } else {
            first_index(holder_at(self.slots@, user), self.count as int)
        }
    }

    /// The rank a lookup of `user` reports in epoch `now`: one past the first
    /// slot, up to the found one, worth as many points as the found entry;
    /// `UNRANKED_RANK` where the lookup finds nothing.
    pub open spec fn rank_of(&self, user: PlayerKey, now: u32) -> int {
        match self.found_slot(user) {
            None => UNRANKED_RANK as int,
            Some(s) => match first_index(
                worth_at(self.slots@, entry_points(self.entry(s), now) as int, now),
                s + 1,
            ) {
                Some(k) => k + 1,
                None => s + 1,
            },
        }
    }

    /// Every ranked player is linked to the last slot holding it.
    pub open spec fn links_last(&self) -> bool {
        forall|k: int|
            0 <= k < self.count && (forall|m: int|
                k < m < self.count ==> (#[trigger] self.entry(m)).address != self.entry(k).address) ==> {
                &&& self.link_view().contains_key(#[trigger] self.entry(k).address)
                &&& self.link_view()[self.entry(k).address] == k
            }
    }

    /// Every ranked player is linked to its slot.
    pub open spec fn linked(&self) -> bool {
        forall|i: int|
            0 <= i < self.count ==> {
                &&& self.link_view().contains_key(#[trigger] self.entry(i).address)
                &&& self.link_view()[self.entry(i).address] == i
            }
    }

    /// The list is well formed in epoch `now`: dense, without repeated
    /// players, sorted by decayed points, and reverse-indexed.
    pub open spec fn wf(&self, now: u32) -> bool {
        &&& self.shaped()
        &&& self.dense()
        &&& distinct_players(self.ranked())
        &&& sorted_at(self.ranked(), now)
        &&& self.linked()
    }

    /// The weakest-entry cache as `recompute_min` leaves it for `count`
    /// slots in epoch `now`.
    pub open spec fn min_cache_fresh(&self, now: u32) -> bool {
        if self.count == 0 {
            self.min_points == 0 && self.min_slot == 0
        } else {
            &&& self.min_slot == self.count - 1
            &&& self.min_points == match self.slots@[self.count - 1] {
                Some(e) => entry_points(e, now),
                None => 0,
            }
        }
    }

    /// Well-formedness depends only on slots, stamps, count and links.
    pub proof fn lemma_wf_frame(a: &LeaderboardContract, b: &LeaderboardContract, now: u32)
        requires
            a.slots@ == b.slots@,
            a.seqs@ == b.seqs@,
            a.count == b.count,
            links_distinct(a.links@),
            links_distinct(b.links@),
            a.link_view() == b.link_view(),
        ensures
            a.wf(now) == b.wf(now),
            a.ranked() == b.ranked(),
            a.dense() == b.dense(),
    {
        assert(a.ranked() =~= b.ranked());
        assert forall|i: int| 0 <= i < a.count implies a.entry(i) == b.entry(i) by {}
    }

    /// A dense list gathers back to its ranked entries.
    pub proof fn lemma_gathered_dense(b: &LeaderboardContract, k: int)
        requires
            b.shaped(),
            b.dense(),
            0 <= k <= MAX_TOP_PLAYERS,
        ensures
            b.gathered(k) == b.top(if k < b.count { k } else { b.count as int }),
        decreases k,
    {
        if k > 0 {
            Self::lemma_gathered_dense(b, k - 1);
            assert(b.slots@[k - 1] is Some <==> k - 1 < b.count);
            if k - 1 < b.count {
                assert(b.gathered(k) =~= b.top(k));
            }
        } else {
            assert(b.gathered(0) =~= b.top(0));
        }
    }

    /// A contract with nothing stored yet: no configuration, an empty list.
    pub fn new() -> (b: LeaderboardContract)
        ensures
            b.admin is None,
            b.market_contract is None,
            b.referral_contract is None,
            b.token_contract is None,
            b.paused is None,
            forall|now: u32| b.wf(now),
            b.count == 0,
            b.min_points == 0,
            b.min_slot == 0,
            b.seq_counter == 0,
            b.link_view() == Map::<PlayerKey, u32>::empty(),
            forall|i: int| 0 <= i < MAX_TOP_PLAYERS ==> b.seqs@[i] is None,
    {
        let mut slots: Vec<Option<PlayerEntry>> = Vec::new();
        let mut seqs: Vec<Option<u64>> = Vec::new();
        let mut i: u32 = 0;
        while i < MAX_TOP_PLAYERS
            invariant
                i <= MAX_TOP_PLAYERS,
                slots@.len() == i,
                seqs@.len() == i,
                forall|j: int| 0 <= j < i ==> slots@[j] is None && seqs@[j] is None,
            decreases MAX_TOP_PLAYERS - i,
        {
            slots.push(None);
            seqs.push(None);
            i = i + 1;
        }
        let b = LeaderboardContract {
            admin: None,
            market_contract: None,
            referral_contract: None,
            token_contract: None,
            paused: None,
            slots,
            seqs,
            count: 0,
            min_points: 0,
            min_slot: 0,
            seq_counter: 0,
            links: Vec::new(),
        };
        assert(b.link_view() =~= Map::<PlayerKey, u32>::empty());
        b
    }

    /// The stamp of slot `s`.
    pub fn seq_at(&self, s: u32) -> (r: u64)
        requires
            self.shaped(),
            s < MAX_TOP_PLAYERS,
        ensures
            r == self.stamp(s as int),
    {
        match self.seqs[s as usize] {
            Some(v) => v,
            None => 0,
        }
    }

    /// Give slot `s` the next insertion stamp.
    pub fn stamp_seq(&mut self, s: u32)
        requires
            old(self).shaped(),
            s < MAX_TOP_PLAYERS,
            old(self).seq_counter < u64::MAX,
        ensures
            final(self).config() == old(self).config(),
            final(self).seq_counter == old(self).seq_counter + 1,
            final(self).seqs@ == old(self).seqs@.update(s as int, Some(final(self).seq_counter)),
            final(self).slots@ == old(self).slots@,
            final(self).links@ == old(self).links@,
            final(self).count == old(self).count,
            final(self).min_points == old(self).min_points,
            final(self).min_slot == old(self).min_slot,
    {
        let counter = self.seq_counter + 1;
        self.seq_counter = counter;
        self.seqs.set(s as usize, Some(counter));
    }

    /// Refresh the weakest-entry cache for a list of `count` slots.
    pub fn recompute_min(&mut self, count: u32, now: u32)
        requires
            old(self).shaped(),
            count <= MAX_TOP_PLAYERS,
        ensures
            final(self).config() == old(self).config(),
            final(self).slots@ == old(self).slots@,
            final(self).seqs@ == old(self).seqs@,
            final(self).links@ == old(self).links@,
            final(self).count == old(self).count,
            final(self).seq_counter == old(self).seq_counter,
            count == 0 ==> final(self).min_points == 0 && final(self).min_slot == 0,
            count > 0 ==> final(self).min_slot == count - 1 && final(self).min_points == match old(
                self,
            ).slots@[count - 1] {
                Some(e) => entry_points(e, now),
                None => 0,
            },
    {
        if count == 0 {
            self.min_points = 0;
            self.min_slot = 0;
            return;
        }
        let min_slot = count - 1;
        let min_pts = match &self.slots[min_slot as usize] {
            Some(entry) => Self::entry_points_now(entry, now),
            None => 0,
        };
        self.min_points = min_pts;
        self.min_slot = min_slot;
    }

    /// Find the slot holding `user`: trust its link if the linked slot holds
    /// it, otherwise drop the link and scan the ranked slots, relinking on a
    /// hit.
    pub fn top_slot_entry(&mut self, user: PlayerKey) -> (r: Option<(u32, PlayerEntry)>)
        requires
            old(self).shaped(),
        ensures
            final(self).shaped(),
            final(self).config() == old(self).config(),
            final(self).slots@ == old(self).slots@,
            final(self).seqs@ == old(self).seqs@,
            final(self).count == old(self).count,
            final(self).min_points == old(self).min_points,
            final(self).min_slot == old(self).min_slot,
            final(self).seq_counter == old(self).seq_counter,
            forall|key: PlayerKey| #[trigger] final(self).found_slot(key) == old(self).found_slot(key),
            match r {
                Some((s, e)) => {
                    &&& old(self).found_slot(user) == Some(s as int)
                    &&& s < MAX_TOP_PLAYERS
                    &&& old(self).slots@[s as int] == Some(e)
                    &&& e.address == user
                    &&& final(self).link_view() == old(self).link_view().insert(user, s)
                    &&& (old(self).link_view().contains_key(user) && old(self).link_view()[user] == s)
                        || (s < old(self).count && forall|k: int|
                        0 <= k < s ==> !(#[trigger] old(self).slots@[k] matches Some(f)
                            && f.address == user))
                },
                None => {
                    &&& old(self).found_slot(user) is None
                    &&& final(self).link_view() == old(self).link_view().remove(user)
                    &&& forall|k: int|
                        0 <= k < old(self).count ==> !(#[trigger] old(self).slots@[k] matches Some(
                            f,
                        ) && f.address == user)
                },
            },
    {
        if let Some(s) = link_get(&self.links, user) {
            if s < MAX_TOP_PLAYERS {
                if let Some(entry) = self.slots[s as usize] {
                    if entry.address == user {
                        proof {
                            assert(old(self).link_view().insert(user, s) =~= old(self).link_view());
                        }
                        return Some((s, entry));
                    }
                }
            }
            link_remove(&mut self.links, user);
        } else {
            proof {
                assert(old(self).link_view().remove(user) =~= old(self).link_view());
            }
        }
        let ghost p = holder_at(old(self).slots@, user);
        proof {
            assert(old(self).found_slot(user) == first_index(p, old(self).count as int));
        }
        let count = self.count;
        let mut s: u32 = 0;
        while s < count
            invariant
                self.config() == old(self).config(),
                self.shaped(),
                count == self.count,
                p == holder_at(old(self).slots@, user),
                old(self).found_slot(user) == first_index(p, old(self).count as int),
                s <= count,
                self.slots@ == old(self).slots@,
                self.seqs@ == old(self).seqs@,
                self.count == old(self).count,
                self.min_points == old(self).min_points,
                self.min_slot == old(self).min_slot,
                self.seq_counter == old(self).seq_counter,
                self.link_view() == old(self).link_view().remove(user),
                forall|k: int|
                    0 <= k < s ==> !(#[trigger] old(self).slots@[k] matches Some(f) && f.address
                        == user),
            decreases count - s,
        {
            if let Some(entry) = self.slots[s as usize] {
                if entry.address == user {
                    link_set(&mut self.links, user, s);
                    proof {
                        assert(old(self).link_view().remove(user).insert(user, s) =~= old(
                            self,
                        ).link_view().insert(user, s));
                        lemma_first_index_found(p, s as int, count as int);
                        assert forall|key: PlayerKey| #[trigger] self.found_slot(key) == old(
                            self,
                        ).found_slot(key) by {
                            if key != user {
                                Self::lemma_found_slot_frame(&*self, &*old(self), key);
                            }
                        }
                    }
                    return Some((s, entry));
                }
            }
            s = s + 1;
        }
        proof {
            lemma_first_index_none(p, count as int);
            assert forall|key: PlayerKey| #[trigger] self.found_slot(key) == old(self).found_slot(key) by {
                if key != user {
                    Self::lemma_found_slot_frame(&*self, &*old(self), key);
                }
            }
        }
        None
    }

    /// Whether a lookup of `user` finds a slot (and so an update of `user`
    /// would hand out no new stamp).
    pub fn found_in_list(&self, user: PlayerKey) -> (r: bool)
        requires
            self.shaped(),
        ensures
            r == self.found_slot(user) is Some,
    {
        if let Some(s) = link_get(&self.links, user) {
            if s < MAX_TOP_PLAYERS {
                if let Some(entry) = self.slots[s as usize] {
                    if entry.address == user {
                        return true;
                    }
                }
            }
        }
        let ghost p = holder_at(self.slots@, user);
        let count = self.count;
        let mut s: u32 = 0;
        while s < count
            invariant
                self.shaped(),
                count == self.count,
                s <= count,
                p == holder_at(self.slots@, user),
                self.found_slot(user) == first_index(p, count as int),
                forall|k: int| 0 <= k < s ==> !(#[trigger] self.slots@[k] matches Some(f) && f.address == user),
            decreases count - s,
        {
            if let Some(entry) = self.slots[s as usize] {
                if entry.address == user {
                    proof {
                        lemma_first_index_found(p, s as int, count as int);
                    }
                    return true;
                }
            }
            s = s + 1;
        }
        proof {
            lemma_first_index_none(p, count as int);
        }
        false
    }

    /// A lookup of `key` reads only the slots, the count and `key`'s link.
    pub proof fn lemma_found_slot_frame(a: &LeaderboardContract, b: &LeaderboardContract, key: PlayerKey)
        requires
            a.slots@ == b.slots@,
            a.count == b.count,
            same_link(a.link_view(), b.link_view(), key),
        ensures
            a.found_slot(key) == b.found_slot(key),
    {
    }

    /// Move the entry at `slot` up past every entry directly above it that it
    /// beats, swapping stamps and links along; an empty slot above is filled
    /// by the entry and shrinks the count.
    pub fn bubble_up(&mut self, entry: PlayerEntry, slot: u32, now: u32)
        requires
            old(self).shaped(),
            slot < MAX_TOP_PLAYERS,
        ensures
            final(self).shaped(),
            final(self).config() == old(self).config(),
            final(self).count <= old(self).count,
            final(self).min_points == old(self).min_points,
            final(self).min_slot == old(self).min_slot,
            final(self).seq_counter == old(self).seq_counter,
            forall|k: int|
                slot < k < MAX_TOP_PLAYERS ==> final(self).slots@[k] == old(self).slots@[k]
                    && final(self).seqs@[k] == old(self).seqs@[k],
            (old(self).filled(slot as int) && old(self).slots@[slot as int] == Some(entry)) ==> ({
                let b = old(self).top(slot + 1);
                let p = rise(b, b[slot as int], slot as int, now);
                &&& 0 <= p <= slot
                &&& final(self).count == old(self).count
                &&& final(self).filled(slot + 1)
                &&& final(self).top(slot + 1) == lifted(b, slot as int, p)
                &&& forall|k: int|
                    0 <= k < MAX_TOP_PLAYERS && !(p <= k <= slot) ==> final(self).seqs@[k] == old(
                        self,
                    ).seqs@[k]
                &&& p == slot ==> final(self).link_view() == old(self).link_view()
                &&& forall|key: PlayerKey|
                    (forall|k: int| p <= k <= slot ==> (#[trigger] b[k]).0.address != key)
                        ==> same_link(final(self).link_view(), old(self).link_view(), key)
                &&& distinct_players(b) ==> forall|k: int|
                    p <= k <= slot && p < slot ==> {
                        &&& final(self).link_view().contains_key(#[trigger] final(self).entry(k).address)
                        &&& final(self).link_view()[final(self).entry(k).address] == k
                    }
            }),
            (0 < slot && old(self).filled(slot - 1) && old(self).slots@[slot - 1] is None && old(
                self,
            ).slots@[slot as int] == Some(entry)) ==> ({
                let b = old(self).top(slot - 1).push((entry, old(self).stamp(slot as int)));
                let p = rise(b, b[slot - 1], slot - 1, now);
                &&& 0 <= p < slot
                &&& final(self).count == (if old(self).count > 1 {
                    old(self).count - 1
                } else {
                    old(self).count as int
                })
                &&& final(self).slots@[slot as int] is None
                &&& final(self).seqs@[slot as int] is None
                &&& final(self).filled(slot as int)
                &&& final(self).top(slot as int) == lifted(b, slot - 1, p)
                &&& forall|k: int| 0 <= k < p ==> final(self).seqs@[k] == old(self).seqs@[k]
                &&& forall|key: PlayerKey|
                    (forall|k: int| p <= k < slot ==> (#[trigger] b[k]).0.address != key)
                        ==> same_link(final(self).link_view(), old(self).link_view(), key)
                &&& distinct_players(b) ==> forall|k: int|
                    p <= k < slot ==> {
                        &&& final(self).link_view().contains_key(#[trigger] final(self).entry(k).address)
                        &&& final(self).link_view()[final(self).entry(k).address] == k
                    }
            }),
            ({
                let r = old(self).ranked();
                let p = rise(r, r[slot as int], slot as int, now);
                (old(self).dense() && slot < old(self).count && old(self).slots@[slot as int] == Some(
                    entry,
                )) ==> {
                    &&& final(self).count == old(self).count
                    &&& final(self).dense()
                    &&& final(self).ranked() == lifted(r, slot as int, p)
                }
            }),
            ({
                let r = old(self).ranked();
                let p = rise(r, r[slot as int], slot as int, now);
                (old(self).dense() && slot < old(self).count && old(self).slots@[slot as int] == Some(
                    entry,
                ) && distinct_players(r) && old(self).link_view().contains_key(entry.address) && old(
                    self,
                ).link_view()[entry.address] == slot) ==> {
                    &&& final(self).count == old(self).count
                    &&& final(self).dense()
                    &&& final(self).ranked() == lifted(r, slot as int, p)
                    &&& 0 <= p <= slot
                    &&& forall|k: int|
                        0 <= k < MAX_TOP_PLAYERS && !(p <= k <= slot) ==> final(self).seqs@[k]
                            == old(self).seqs@[k]
                    &&& forall|k: int|
                        p <= k <= slot ==> {
                            &&& final(self).link_view().contains_key(
                                #[trigger] final(self).entry(k).address,
                            )
                            &&& final(self).link_view()[final(self).entry(k).address] == k
                        }
                    &&& forall|key: PlayerKey|
                        (forall|k: int| p <= k <= slot ==> (#[trigger] r[k]).0.address != key)
                            ==> same_link(final(self).link_view(), old(self).link_view(), key)
                }
            }),
    {
        let ghost ca = old(self).filled(slot as int) && old(self).slots@[slot as int] == Some(entry);
        let ghost cb = 0 < slot && old(self).filled(slot - 1) && old(self).slots@[slot - 1] is None
            && old(self).slots@[slot as int] == Some(entry);
        let ghost m: int = if cb {
            slot - 1
        } else {
            slot as int
        };
        let ghost b: Seq<Ranked> = if cb {
            old(self).top(slot - 1).push((entry, old(self).stamp(slot as int)))
        } else {
            old(self).top(slot + 1)
        };
        let mut cur = slot;
        proof {
            if ca && slot > 0 {
                assert(old(self).slots@[slot - 1] is Some);
            }
            if ca {
                assert forall|k: int| 0 <= k <= m implies (#[trigger] self.entry(k), self.stamp(k))
                    == lifted_at(b, m, cur as int, k) by {
                    assert(b[k] == (self.entry(k), self.stamp(k)));
                }
            }
        }
        while cur > 0
            invariant
                self.config() == old(self).config(),
                self.shaped(),
                cur <= slot < MAX_TOP_PLAYERS,
                self.count <= old(self).count,
                self.min_points == old(self).min_points,
                self.min_slot == old(self).min_slot,
                self.seq_counter == old(self).seq_counter,
                forall|k: int|
                    slot < k < MAX_TOP_PLAYERS ==> self.slots@[k] == old(self).slots@[k]
                        && self.seqs@[k] == old(self).seqs@[k],
                ca == (old(self).filled(slot as int) && old(self).slots@[slot as int] == Some(entry)),
                cb == (0 < slot && old(self).filled(slot - 1) && old(self).slots@[slot - 1] is None
                    && old(self).slots@[slot as int] == Some(entry)),
                !(ca && cb),
                m == (if cb {
                    slot - 1
                } else {
                    slot as int
                }),
                b == (if cb {
                    old(self).top(slot - 1).push((entry, old(self).stamp(slot as int)))
                } else {
                    old(self).top(slot + 1)
                }),
                cb && cur == slot ==> {
                    &&& self.slots@ == old(self).slots@
                    &&& self.seqs@ == old(self).seqs@
                    &&& self.count == old(self).count
                    &&& self.links@ == old(self).links@
                },
                ca || (cb && cur < slot) ==> {
                    &&& cur <= m
                    &&& b.len() == m + 1
                    &&& b[m].0 == entry
                    &&& self.filled(m + 1)
                    &&& forall|k: int|
                        0 <= k <= m ==> (#[trigger] self.entry(k), self.stamp(k)) == lifted_at(
                            b,
                            m,
                            cur as int,
                            k,
                        )
                    &&& rise(b, b[m], m, now) == rise(b, b[m], cur as int, now)
                    &&& self.count == (if cb {
                        if old(self).count > 1 {
                            old(self).count - 1
                        } else {
                            old(self).count as int
                        }
                    } else {
                        old(self).count as int
                    })
                    &&& cb ==> self.slots@[slot as int] is None && self.seqs@[slot as int] is None
                    &&& forall|k: int|
                        0 <= k < MAX_TOP_PLAYERS && !(cur <= k <= m) && !(cb && k == slot)
                            ==> self.seqs@[k] == old(self).seqs@[k]
                    &&& forall|key: PlayerKey|
                        (forall|k: int| cur <= k <= m ==> (#[trigger] b[k]).0.address != key)
                            ==> same_link(self.link_view(), old(self).link_view(), key)
                    &&& (cur == m && !cb) ==> self.links@ == old(self).links@
                    &&& (distinct_players(b) && (cur < m || cb)) ==> forall|k: int|
                        cur <= k <= m ==> {
                            &&& self.link_view().contains_key(#[trigger] self.entry(k).address)
                            &&& self.link_view()[self.entry(k).address] == k
                        }
                },
            ensures
                ca || cb ==> rise(b, b[m], m, now) == cur && (cb ==> cur < slot),
            decreases cur,
        {
            match self.slots[(cur - 1) as usize] {
                Some(prev) => {
                    proof {
                        if cb && cur == slot {
                            assert(old(self).slots@[slot - 1] is None);
                        }
                    }
                    let prev_pts = Self::entry_points_now(&prev, now);
                    let entry_pts = Self::entry_points_now(&entry, now);
                    let should_swap = if entry_pts > prev_pts {
                        true
                    } else if entry_pts == prev_pts {
                        let entry_seq = self.seq_at(cur);
                        let prev_seq = self.seq_at(cur - 1);
                        entry_seq > prev_seq
                    } else {
                        false
                    };
                    proof {
                        if ca || cb {
                            assert((self.entry(cur - 1), self.stamp(cur - 1)) == lifted_at(
                                b,
                                m,
                                cur as int,
                                cur - 1,
                            ));
                            assert((self.entry(cur as int), self.stamp(cur as int)) == lifted_at(
                                b,
                                m,
                                cur as int,
                                cur as int,
                            ));
                            assert(self.entry(cur - 1) == prev);
                            assert(should_swap == beats(b[m], b[cur - 1], now));
                        }
                    }
                    if !should_swap {
                        break;
                    }
                    let ghost before = *self;
                    self.slots.set((cur - 1) as usize, Some(entry));
                    self.slots.set(cur as usize, Some(prev));
                    link_set(&mut self.links, entry.address, cur - 1);
                    link_set(&mut self.links, prev.address, cur);
                    let seq_hi = self.seq_at(cur - 1);
                    let seq_lo = self.seq_at(cur);
                    self.seqs.set((cur - 1) as usize, Some(seq_lo));
                    self.seqs.set(cur as usize, Some(seq_hi));
                    proof {
                        if ca || cb {
                            assert(b[cur - 1] == (prev, before.stamp(cur - 1)));
                            assert(b[m] == (entry, before.stamp(cur as int)));
                            assert forall|k: int| 0 <= k < m + 1 implies (
                                #[trigger] self.slots@[k]) is Some by {
                                assert(before.slots@[k] is Some);
                            }
                            assert forall|k: int| 0 <= k <= m implies (
                                #[trigger] self.entry(k), self.stamp(k)) == lifted_at(
                                b,
                                m,
                                cur - 1,
                                k,
                            ) by {
                                if k != cur - 1 && k != cur {
                                    assert((before.entry(k), before.stamp(k)) == lifted_at(
                                        b,
                                        m,
                                        cur as int,
                                        k,
                                    ));
                                }
                            }
                            assert(beats(b[m], b[cur - 1], now));
                            assert forall|key: PlayerKey|
                                (forall|k: int| cur - 1 <= k <= m ==> (#[trigger] b[k]).0.address
                                    != key) implies same_link(
                                self.link_view(),
                                old(self).link_view(),
                                key,
                            ) by {
                                assert(b[cur - 1].0.address != key);
                                assert(b[m].0.address != key);
                                assert forall|k: int| cur <= k <= m implies (
                                    #[trigger] b[k]).0.address != key by {
                                    assert(cur - 1 <= k <= m);
                                }
                                assert(same_link(before.link_view(), old(self).link_view(), key));
                            }
                            if distinct_players(b) {
                                assert(b[cur - 1].0.address != b[m].0.address);
                                assert forall|k: int| cur - 1 <= k <= m implies {
                                    &&& self.link_view().contains_key(
                                        #[trigger] self.entry(k).address,
                                    )
                                    &&& self.link_view()[self.entry(k).address] == k
                                } by {
                                    if k > cur {
                                        assert((before.entry(k), before.stamp(k)) == lifted_at(
                                            b,
                                            m,
                                            cur as int,
                                            k,
                                        ));
                                        assert(b[k - 1].0.address != b[m].0.address);
                                        assert(b[k - 1].0.address != b[cur - 1].0.address);
                                    }
                                }
                            }
                        }
                    }
                    cur = cur - 1;
                },
                None => {
                    proof {
                        if ca || (cb && cur < slot) {
                            assert(self.slots@[cur - 1] is Some);
                        }
                    }
                    let ghost before = *self;
                    self.slots.set((cur - 1) as usize, Some(entry));
                    self.slots.set(cur as usize, None);
                    link_set(&mut self.links, entry.address, cur - 1);
                    let seq_lo = self.seq_at(cur);
                    self.seqs.set((cur - 1) as usize, Some(seq_lo));
                    self.seqs.set(cur as usize, None);
                    let count = self.count;
                    if count > 1 {
                        self.count = count - 1;
                    }
                    cur = cur - 1;
                    proof {
                        if cb {
                            assert(cur == m);
                            assert forall|k: int| 0 <= k < m + 1 implies (
                                #[trigger] self.slots@[k]) is Some by {
                                if k < m {
                                    assert(old(self).slots@[k] is Some);
                                }
                            }
                            assert forall|k: int| 0 <= k <= m implies (
                                #[trigger] self.entry(k), self.stamp(k)) == lifted_at(
                                b,
                                m,
                                cur as int,
                                k,
                            ) by {
                                if k < m {
                                    assert(b[k] == old(self).top(slot - 1)[k]);
                                }
                            }
                            assert forall|key: PlayerKey|
                                (forall|k: int| cur <= k <= m ==> (#[trigger] b[k]).0.address
                                    != key) implies same_link(
                                self.link_view(),
                                old(self).link_view(),
                                key,
                            ) by {
                                assert(b[m].0.address != key);
                            }
                        }
                    }
                },
            }
        }
        proof {
            let r = old(self).ranked();
            if ca || cb {
                assert(self.top(m + 1) =~= lifted(b, m, cur as int));
            }
            if old(self).dense() && slot < old(self).count && old(self).slots@[slot as int] == Some(
                entry,
            ) {
                assert forall|i: int| 0 <= i < slot implies (#[trigger] old(self).slots@[i]) is Some by {
                    assert(old(self).slots@[i] is Some <==> i < old(self).count);
                }
                assert(ca);
                assert forall|k: int| 0 <= k < slot implies r[k] == b[k] by {}
                lemma_rise_prefix(r, b, r[slot as int], slot as int, now);
                assert(r[slot as int] == b[slot as int]);
                let p = cur as int;
                if distinct_players(r) {
                    assert forall|i: int, j: int|
                        0 <= i < b.len() && 0 <= j < b.len() && i != j implies (#[trigger] b[i]).0.address
                            != (#[trigger] b[j]).0.address by {
                        assert(b[i] == r[i]);
                        assert(b[j] == r[j]);
                    }
                }
                assert forall|i: int| 0 <= i < MAX_TOP_PLAYERS implies (
                    #[trigger] self.slots@[i] is Some <==> i < self.count) by {
                    if i > slot {
                        assert(old(self).slots@[i] is Some <==> i < old(self).count);
                    }
                }
                assert forall|k: int| 0 <= k < self.count implies #[trigger] self.ranked()[k] == lifted(
                    r,
                    slot as int,
                    p,
                )[k] by {
                    if k <= slot {
                        assert(self.top(slot + 1)[k] == lifted(b, slot as int, p)[k]);
                    } else {
                        assert(old(self).seqs@[k] == self.seqs@[k]);
                    }
                }
                assert(self.ranked() =~= lifted(r, slot as int, p));
                if p == slot {
                    assert(self.entry(slot as int) == entry) by {
                        assert(self.top(slot + 1)[slot as int] == lifted(b, slot as int, p)[slot as int]);
                    }
                }
                assert forall|key: PlayerKey|
                    (forall|k: int| p <= k <= slot ==> (#[trigger] r[k]).0.address != key)
                        implies same_link(self.link_view(), old(self).link_view(), key) by {
                    assert forall|k: int| p <= k <= slot implies (#[trigger] b[k]).0.address != key by {
                        assert(r[k] == b[k]);
                    }
                }
            }
        }
    }

    /// Rebuild the list from every stored entry: sort them by decayed points
    /// (selection sort, best first), store them densely with their stamps and
    /// links, clear the remaining slots, and refresh count and cache.
    pub fn repair_top_list(&mut self, now: u32) -> (n: u32)
        requires
            old(self).shaped(),
        ensures
            final(self).shaped(),
            final(self).config() == old(self).config(),
            n == final(self).count,
            rebuild_of(*old(self), *final(self), now),
    {
        let ghost g = old(self).gathered(MAX_TOP_PLAYERS as int);
        let mut entries: Vec<PlayerEntry> = Vec::new();
        let mut stamps: Vec<u64> = Vec::new();
        let mut i: u32 = 0;
        while i < MAX_TOP_PLAYERS
            invariant
                *self == *old(self),
                self.shaped(),
                i <= MAX_TOP_PLAYERS,
                entries@.len() == stamps@.len(),
                entries@.len() <= i,
                Seq::new(entries@.len(), |k: int| (entries@[k], stamps@[k])) == self.gathered(
                    i as int,
                ),
            decreases MAX_TOP_PLAYERS - i,
        {
            if let Some(e) = self.slots[i as usize] {
                let s = self.seq_at(i);
                entries.push(e);
                stamps.push(s);
            }
            assert(Seq::new(entries@.len(), |k: int| (entries@[k], stamps@[k])) =~= self.gathered(
                i + 1,
            ));
            i = i + 1;
        }
        let n = entries.len();
        let ghost mut perm: Seq<int> = Seq::new(n as nat, |k: int| k);
        proof {
            assert(Seq::new(n as nat, |k: int| (entries@[k], stamps@[k])) =~= g);
        }
        let mut i: usize = 0;
        while i < n
            invariant
                n == entries@.len(),
                n == stamps@.len(),
                n == g.len(),
                n <= MAX_TOP_PLAYERS,
                i <= n,
                is_permutation(perm, n as int),
                forall|k: int| 0 <= k < n ==> (#[trigger] entries@[k], stamps@[k]) == g[perm[k]],
                forall|a: int, b: int|
                    0 <= a < b < n && a < i ==> entry_points(#[trigger] entries@[a], now)
                        >= entry_points(#[trigger] entries@[b], now),
                sorted_at(g, now) ==> forall|k: int| 0 <= k < n ==> #[trigger] perm[k] == k,
                selection_sorted(Seq::new(n as nat, |k: int| (entries@[k], stamps@[k])), i as int, now)
                    == selection_sorted(g, 0, now),
            decreases n - i,
        {
            let ghost cur = Seq::new(n as nat, |k: int| (entries@[k], stamps@[k]));
            let mut max_idx = i;
            let mut j = i + 1;
            proof {
                if sorted_at(g, now) {
                    assert forall|k: int| 0 <= k < n implies #[trigger] entries@[k] == g[k].0 by {
                        assert((entries@[k], stamps@[k]) == g[perm[k]]);
                    }
                }
            }
            while j < n
                invariant
                    n == entries@.len(),
                    n == g.len(),
                    i < n,
                    i <= max_idx < j <= n,
                    sorted_at(g, now) ==> max_idx == i && forall|k: int|
                        0 <= k < n ==> #[trigger] entries@[k] == g[k].0,
                    forall|k: int|
                        i <= k < j ==> entry_points(entries@[max_idx as int], now) >= entry_points(
                            #[trigger] entries@[k],
                            now,
                        ),
                    cur == Seq::new(n as nat, |k: int| (entries@[k], stamps@[k])),
                    max_idx == first_best(cur, i as int, j as int, now),
                decreases n - j,
            {
                let a = Self::entry_points_now(&entries[j], now);
                let b = Self::entry_points_now(&entries[max_idx], now);
                if a > b {
                    max_idx = j;
                }
                j = j + 1;
            }
            if max_idx != i {
                let a = entries[i];
                let b = entries[max_idx];
                entries.set(i, b);
                entries.set(max_idx, a);
                let sa = stamps[i];
                let sb = stamps[max_idx];
                stamps.set(i, sb);
                stamps.set(max_idx, sa);
                proof {
                    let pi = perm[i as int];
                    let pm = perm[max_idx as int];
                    perm = perm.update(i as int, pm).update(max_idx as int, pi);
                }
            }
            proof {
                assert(Seq::new(n as nat, |k: int| (entries@[k], stamps@[k])) =~= cur.update(
                    i as int,
                    cur[max_idx as int],
                ).update(max_idx as int, cur[i as int]));
            }
            i = i + 1;
        }
        let ghost sorted_pairs = Seq::new(n as nat, |k: int| (entries@[k], stamps@[k]));
        proof {
            assert(selection_sorted(sorted_pairs, n as int, now) == sorted_pairs);
            if sorted_at(g, now) {
                assert forall|k: int| 0 <= k < n implies #[trigger] sorted_pairs[k] == g[k] by {
                    assert((entries@[k], stamps@[k]) == g[perm[k]]);
                }
                assert(sorted_pairs =~= g);
            }
        }
        let mut slot: usize = 0;
        while slot < n
            invariant
                self.config() == old(self).config(),
                self.shaped(),
                n == entries@.len(),
                n == stamps@.len(),
                n <= MAX_TOP_PLAYERS,
                slot <= n,
                self.seq_counter == old(self).seq_counter,
                sorted_pairs == Seq::new(n as nat, |k: int| (entries@[k], stamps@[k])),
                forall|k: int| 0 <= k < slot ==> #[trigger] self.slots@[k] == Some(entries@[k]),
                forall|k: int| 0 <= k < slot ==> #[trigger] self.seqs@[k] == Some(stamps@[k]),
                forall|k: int|
                    0 <= k < slot && (forall|m: int|
                        k < m < slot ==> (#[trigger] entries@[m]).address != entries@[k].address)
                        ==> self.link_view().contains_key(#[trigger] entries@[k].address)
                        && self.link_view()[entries@[k].address] == k,
                forall|key: PlayerKey|
                    (forall|k: int| 0 <= k < slot ==> (#[trigger] entries@[k]).address != key)
                        ==> same_link(self.link_view(), old(self).link_view(), key),
            decreases n - slot,
        {
            let entry = entries[slot];
            let seq = stamps[slot];
            let ghost before = self.link_view();
            proof {
                assert forall|key: PlayerKey|
                    (forall|k: int| 0 <= k < slot ==> (#[trigger] entries@[k]).address != key)
                        implies same_link(before, old(self).link_view(), key) by {
                }
            }
            self.slots.set(slot, Some(entry));
            link_set(&mut self.links, entry.address, slot as u32);
            self.seqs.set(slot, Some(seq));
            proof {
                assert forall|key: PlayerKey|
                    (forall|k: int| 0 <= k < slot + 1 ==> (#[trigger] entries@[k]).address != key)
                        implies same_link(self.link_view(), old(self).link_view(), key) by {
                    assert(entries@[slot as int].address != key);
                    assert(forall|k: int| 0 <= k < slot ==> (#[trigger] entries@[k]).address != key);
                    assert(same_link(before, old(self).link_view(), key));
                }
            }
            slot = slot + 1;
        }
        let ghost links_written = self.links@;
        proof {
            assert(slot == n);
            assert forall|key: PlayerKey|
                (forall|k: int| 0 <= k < n ==> (#[trigger] entries@[k]).address != key) implies same_link(
                link_map(links_written),
                old(self).link_view(),
                key,
            ) by {
                assert(forall|k: int| 0 <= k < slot ==> (#[trigger] entries@[k]).address != key);
                assert(same_link(self.link_view(), old(self).link_view(), key));
            }
        }
        let mut slot: usize = n;
        while slot < MAX_TOP_PLAYERS as usize
            invariant
                self.config() == old(self).config(),
                self.links@ == links_written,
                self.shaped(),
                n == entries@.len(),
                n == stamps@.len(),
                n <= slot <= MAX_TOP_PLAYERS,
                self.seq_counter == old(self).seq_counter,
                forall|k: int| 0 <= k < n ==> #[trigger] self.slots@[k] == Some(entries@[k]),
                forall|k: int| 0 <= k < n ==> #[trigger] self.seqs@[k] == Some(stamps@[k]),
                forall|k: int| n <= k < slot ==> #[trigger] self.slots@[k] is None,
                forall|k: int| n <= k < slot ==> #[trigger] self.seqs@[k] is None,
            decreases MAX_TOP_PLAYERS - slot,
        {
            self.slots.set(slot, None);
            self.seqs.set(slot, None);
            slot = slot + 1;
        }
        self.count = n as u32;
        proof {
            assert(self.ranked() =~= sorted_pairs);
            assert forall|k: int|
                0 <= k < self.count && (forall|m: int|
                    k < m < self.count ==> (#[trigger] self.entry(m)).address != self.entry(k).address)
                    implies {
                &&& self.link_view().contains_key(#[trigger] self.entry(k).address)
                &&& self.link_view()[self.entry(k).address] == k
            } by {
                assert(self.entry(k) == entries@[k]);
                assert forall|m: int| k < m < n implies (#[trigger] entries@[m]).address
                    != entries@[k].address by {
                    assert(self.entry(m) == entries@[m]);
                }
            }
            assert(self.dense());
            assert forall|key: PlayerKey| !holds_player(g, key) implies same_link(
                self.link_view(),
                old(self).link_view(),
                key,
            ) by {
                assert forall|k: int| 0 <= k < n implies (#[trigger] entries@[k]).address != key by {
                    assert(sorted_pairs[k] == (entries@[k], stamps@[k]));
                    assert(sorted_pairs[k] == g[perm[k]]);
                    assert(0 <= perm[k] < n);
                    if entries@[k].address == key {
                        assert(g[perm[k]].0.address == key);
                    }
                }
                assert(same_link(link_map(links_written), old(self).link_view(), key));
            }
            if distinct_players(g) {
                lemma_reorders_distinct(sorted_pairs, g);
                assert forall|i: int| 0 <= i < self.count implies {
                    &&& self.link_view().contains_key(#[trigger] self.entry(i).address)
                    &&& self.link_view()[self.entry(i).address] == i
                } by {
                    assert(sorted_pairs[i] == (entries@[i], stamps@[i]));
                    assert forall|m: int| i < m < n implies (#[trigger] entries@[m]).address
                        != entries@[i].address by {
                        assert(sorted_pairs[m] == (entries@[m], stamps@[m]));
                    }
                }
            }
        }
        let ghost written = *self;
        if n > 0 {
            self.recompute_min(n as u32, now);
        } else {
            self.min_points = 0;
            self.min_slot = 0;
        }
        proof {
            assert(self.ranked() =~= written.ranked());
            assert forall|k: int|
                0 <= k < self.count && (forall|m: int|
                    k < m < self.count ==> (#[trigger] self.entry(m)).address != self.entry(k).address)
                    implies {
                &&& self.link_view().contains_key(#[trigger] self.entry(k).address)
                &&& self.link_view()[self.entry(k).address] == k
            } by {
                assert(self.entry(k) == written.entry(k));
                assert forall|m: int| k < m < written.count implies (#[trigger] written.entry(m)).address
                    != written.entry(k).address by {
                    assert(self.entry(m) == written.entry(m));
                }
            }
        }
        n as u32
    }

    /// Put a new entry for `user` in slot `slot`, stamp it, make the list
    /// `slot + 1` long, move the entry up to its place, and refresh the cache.
    pub fn insert_new(&mut self, user: PlayerKey, points: u64, slot: u32, now: u32)
        requires
            old(self).shaped(),
            slot < MAX_TOP_PLAYERS,
            old(self).seq_counter < u64::MAX,
        ensures
            final(self).shaped(),
            final(self).config() == old(self).config(),
            final(self).seq_counter == old(self).seq_counter + 1,
            final(self).count <= slot + 1,
            ({
                let e = PlayerEntry { address: user, points, epoch: now };
                let r1 = old(self).ranked().push((e, (old(self).seq_counter + 1) as u64));
                (old(self).dense() && slot == old(self).count) ==> {
                    &&& final(self).count == slot + 1
                    &&& final(self).dense()
                    &&& final(self).ranked() == lifted(r1, slot as int, rise(r1, r1[slot as int], slot as int, now))
                    &&& final(self).min_cache_fresh(now)
                }
            }),
            ({
                let e = PlayerEntry { address: user, points, epoch: now };
                let r1 = old(self).ranked().push((e, (old(self).seq_counter + 1) as u64));
                (old(self).wf(now) && slot == old(self).count && !holds_player(old(self).ranked(), user))
                    ==> {
                    &&& final(self).wf(now)
                    &&& final(self).count == slot + 1
                    &&& final(self).ranked() == lifted(r1, slot as int, rise(r1, r1[slot as int], slot as int, now))
                    &&& final(self).min_cache_fresh(now)
                    &&& forall|key: PlayerKey|
                        key != user && !holds_player(old(self).ranked(), key) ==> same_link(
                            final(self).link_view(),
                            old(self).link_view(),
                            key,
                        )
                }
            }),
    {
        let entry = PlayerEntry { address: user, points, epoch: now };
        self.slots.set(slot as usize, Some(entry));
        link_set(&mut self.links, user, slot);
        self.stamp_seq(slot);
        let new_count = slot + 1;
        self.count = new_count;
        let ghost mid = *self;
        let ghost r1 = old(self).ranked().push((entry, (old(self).seq_counter + 1) as u64));
        let ghost exact = old(self).wf(now) && slot == old(self).count && !holds_player(
            old(self).ranked(),
            user,
        );
        let ghost dense_case = old(self).dense() && slot == old(self).count;
        proof {
            if dense_case {
                assert(mid.ranked() =~= r1);
                assert forall|i: int| 0 <= i < MAX_TOP_PLAYERS implies (#[trigger] mid.slots@[i] is Some
                    <==> i < mid.count) by {
                    assert(old(self).slots@[i] is Some <==> i < old(self).count);
                }
            }
            if exact {
                assert(distinct_players(r1)) by {
                    assert forall|a: int, b: int|
                        0 <= a < r1.len() && 0 <= b < r1.len() && a != b implies (
                        #[trigger] r1[a]).0.address != (#[trigger] r1[b]).0.address by {
                        if a < slot && b < slot {
                            assert(r1[a] == old(self).ranked()[a]);
                            assert(r1[b] == old(self).ranked()[b]);
                        } else if a < slot {
                            assert(r1[a] == old(self).ranked()[a]);
                        } else if b < slot {
                            assert(r1[b] == old(self).ranked()[b]);
                        }
                    }
                }
            }
        }
        self.bubble_up(entry, slot, now);
        proof {
            if exact {
                let p = rise(r1, r1[slot as int], slot as int, now);
                lemma_rise(r1, r1[slot as int], slot as int, now);
                lemma_lift_distinct(r1, slot as int, p);
                assert forall|i: int| 0 <= i < self.count implies {
                    &&& self.link_view().contains_key(#[trigger] self.entry(i).address)
                    &&& self.link_view()[self.entry(i).address] == i
                } by {
                    if i < p {
                        assert(self.ranked()[i] == r1[i]);
                        assert(self.entry(i) == r1[i].0);
                        assert forall|k: int| p <= k <= slot implies (#[trigger] r1[k]).0.address
                            != r1[i].0.address by {
                        }
                        assert(same_link(self.link_view(), mid.link_view(), r1[i].0.address));
                        assert(old(self).ranked()[i] == r1[i]);
                    }
                }
                assert forall|key: PlayerKey|
                    key != user && !holds_player(old(self).ranked(), key) implies same_link(
                    self.link_view(),
                    old(self).link_view(),
                    key,
                ) by {
                    assert forall|k: int| p <= k <= slot implies (#[trigger] r1[k]).0.address != key by {
                        if k < slot {
                            assert(old(self).ranked()[k] == r1[k]);
                        }
                    }
                    assert(same_link(self.link_view(), mid.link_view(), key));
                    assert(mid.link_view() == old(self).link_view().insert(user, slot));
                }
                assert forall|a: int, b: int|
                    0 <= a < b < r1.len() && a != slot && b != slot implies entry_points(
                    #[trigger] r1[a].0,
                    now,
                ) >= entry_points(#[trigger] r1[b].0, now) by {
                    assert(r1[a] == old(self).ranked()[a]);
                    assert(r1[b] == old(self).ranked()[b]);
                }
                lemma_lift_sorted(r1, slot as int, now);
                assert(self.ranked() == lifted(r1, slot as int, p));
                assert(sorted_at(self.ranked(), now));
                assert(distinct_players(self.ranked()));
                assert(self.dense());
                assert(self.linked());
            }
        }
        let ghost pre_min = *self;
        self.recompute_min(new_count, now);
        proof {
            if dense_case {
                Self::lemma_wf_frame(&*self, &pre_min, now);
            }
            if exact {
                assert(pre_min.wf(now));
                Self::lemma_wf_frame(&*self, &pre_min, now);
                assert(self.wf(now));
                assert(self.count == slot + 1);
                assert(self.min_cache_fresh(now));
            }
        }
    }

    /// What `update_top_players(user, new_points, now)` leaves, from `pre`
    /// to `post`: sizes and configuration kept, at most one stamp used, and,
    /// on a list well formed in epoch `now`, the exact new order: the player's
    /// entry refreshed and moved up, or inserted while there is room, or
    /// replacing the weakest entry unless that has more points now.
    pub open spec fn top_updated(pre: Self, post: Self, user: PlayerKey, new_points: u64, now: u32) -> bool {
        &&& post.shaped()
        &&& post.config() == pre.config()
        &&& post.seq_counter <= pre.seq_counter + 1
        &&& ({
            let r = pre.ranked();
            let e = PlayerEntry { address: user, points: new_points, epoch: now };
            let c = pre.count as int;
            pre.dense() ==> match pre.found_slot(user) {
                Some(i) => {
                    let r1 = r.update(i, (e, r[i].1));
                    &&& 0 <= i < c
                    &&& post.ranked() == lifted(r1, i, rise(r1, r1[i], i, now))
                    &&& post.count == pre.count
                    &&& post.dense()
                    &&& post.min_cache_fresh(now)
                },
                None => if c < MAX_TOP_PLAYERS {
                    let r1 = r.push((e, (pre.seq_counter + 1) as u64));
                    &&& post.ranked() == lifted(r1, c, rise(r1, r1[c], c, now))
                    &&& post.count == c + 1
                    &&& post.dense()
                    &&& post.min_cache_fresh(now)
                } else if (new_points as nat) < entry_points(r[c - 1].0, now) {
                    &&& post.ranked() == r
                    &&& post.count == pre.count
                    &&& post.dense()
                    &&& post.min_points == pre.min_points
                    &&& post.min_slot == pre.min_slot
                } else {
                    let r1 = r.update(c - 1, (e, (pre.seq_counter + 1) as u64));
                    &&& post.ranked() == lifted(r1, c - 1, rise(r1, r1[c - 1], c - 1, now))
                    &&& post.count == pre.count
                    &&& post.dense()
                    &&& post.min_cache_fresh(now)
                },
            }
        })
        &&& ({
            let r = pre.ranked();
            let e = PlayerEntry { address: user, points: new_points, epoch: now };
            let c = pre.count as int;
            pre.wf(now) ==> {
                &&& forall|key: PlayerKey|
                    key != user && !holds_player(r, key) ==> same_link(
                        post.link_view(),
                        pre.link_view(),
                        key,
                    )
                &&& if holds_player(r, user) {
                    forall|i: int|
                        0 <= i < c && (#[trigger] r[i]).0.address == user ==> {
                            let r1 = r.update(i, (e, r[i].1));
                            &&& post.ranked() == lifted(r1, i, rise(r1, r1[i], i, now))
                            &&& post.count == pre.count
                            &&& post.seq_counter == pre.seq_counter
                            &&& post.min_cache_fresh(now)
                            &&& post.dense()
                            &&& (new_points >= entry_points(r[i].0, now) ==> post.wf(now))
                        }
                } else if c < MAX_TOP_PLAYERS {
                    let r1 = r.push((e, (pre.seq_counter + 1) as u64));
                    &&& post.ranked() == lifted(r1, c, rise(r1, r1[c], c, now))
                    &&& post.count == c + 1
                    &&& post.seq_counter == pre.seq_counter + 1
                    &&& post.min_cache_fresh(now)
                    &&& post.wf(now)
                } else if (new_points as nat) < entry_points(r[c - 1].0, now) {
                    &&& post.ranked() == r
                    &&& post.count == pre.count
                    &&& post.wf(now)
                    &&& post.seq_counter == pre.seq_counter
                    &&& post.min_points == pre.min_points
                    &&& post.min_slot == pre.min_slot
                    &&& post.link_view() == pre.link_view().remove(user)
                } else {
                    let r1 = r.update(c - 1, (e, (pre.seq_counter + 1) as u64));
                    &&& post.ranked() == lifted(r1, c - 1, rise(r1, r1[c - 1], c - 1, now))
                    &&& post.count == pre.count
                    &&& post.seq_counter == pre.seq_counter + 1
                    &&& post.min_cache_fresh(now)
                    &&& post.wf(now)
                    &&& !post.link_view().contains_key(r[c - 1].0.address)
                }
            }
        })
    }

    /// Record that `user` now has `new_points` (in epoch `now`): update its
    /// entry in place and move it up, or insert it while the list has room,
    /// or, when full, let it replace the weakest entry unless it has fewer
    /// points. A full list with an empty weakest slot is rebuilt first.
    pub fn update_top_players(&mut self, user: PlayerKey, new_points: u64, now: u32)
        requires
            old(self).shaped(),
            old(self).seq_counter < u64::MAX || old(self).found_slot(user) is Some,
        ensures
            Self::top_updated(*old(self), *final(self), user, new_points, now),
    {
        let ghost r = old(self).ranked();
        let ghost e = PlayerEntry { address: user, points: new_points, epoch: now };
        let ghost c = old(self).count as int;
        let ghost was_wf = old(self).wf(now);
        let ghost dn = old(self).dense();
        if let Some((slot, entry)) = self.top_slot_entry(user) {
            let mut entry = entry;
            entry.points = new_points;
            entry.epoch = now;
            proof {
                if was_wf {
                    if old(self).link_view().contains_key(user) && old(self).link_view()[user] == slot {
                        let j = choose|j: int| 0 <= j < c && (#[trigger] r[j]).0.address == user;
                        assert(r[j].0.address == user);
                        assert(old(self).entry(j).address == user);
                        assert(old(self).link_view()[old(self).entry(j).address] == j);
                    }
                    assert(slot < c);
                    assert(r[slot as int].0.address == user);
                    assert(holds_player(r, user));
                    assert forall|i: int| 0 <= i < c && (#[trigger] r[i]).0.address == user implies i == slot by {
                    }
                }
            }
            let ghost mid0 = *self;
            self.slots.set(slot as usize, Some(entry));
            let ghost mid = *self;
            let ghost r1 = r.update(slot as int, (e, r[slot as int].1));
            proof {
                if dn {
                    assert(old(self).slots@[slot as int] is Some);
                    assert(old(self).slots@[slot as int] is Some <==> slot < old(self).count);
                    assert(entry == e);
                    assert(mid.ranked() =~= r1);
                    assert forall|i: int| 0 <= i < MAX_TOP_PLAYERS implies (#[trigger] mid.slots@[i] is Some
                        <==> i < mid.count) by {
                        assert(old(self).slots@[i] is Some <==> i < old(self).count);
                    }
                }
                if was_wf {
                    assert(entry == e);
                    assert(mid.ranked() =~= r1);
                    assert forall|i: int| 0 <= i < MAX_TOP_PLAYERS implies (#[trigger] mid.slots@[i] is Some
                        <==> i < mid.count) by {
                        assert(old(self).slots@[i] is Some <==> i < old(self).count);
                    }
                    assert(distinct_players(r1)) by {
                        assert forall|a: int, b: int|
                            0 <= a < r1.len() && 0 <= b < r1.len() && a != b implies (
                            #[trigger] r1[a]).0.address != (#[trigger] r1[b]).0.address by {
                            assert(r1[a].0.address == r[a].0.address);
                            assert(r1[b].0.address == r[b].0.address);
                        }
                    }
                    assert(mid.link_view() == old(self).link_view().insert(user, slot));
                }
            }
            self.bubble_up(entry, slot, now);
            proof {
                if was_wf {
                    let p = rise(r1, r1[slot as int], slot as int, now);
                    lemma_rise(r1, r1[slot as int], slot as int, now);
                    lemma_lift_distinct(r1, slot as int, p);
                    assert forall|i: int| 0 <= i < self.count && !(p <= i <= slot) implies {
                        &&& self.link_view().contains_key(#[trigger] self.entry(i).address)
                        &&& self.link_view()[self.entry(i).address] == i
                    } by {
                        assert(self.ranked()[i] == r1[i]);
                        assert(r1[i] == r[i] || i == slot);
                        assert forall|k: int| p <= k <= slot implies (#[trigger] r1[k]).0.address
                            != r1[i].0.address by {
                        }
                        assert(same_link(self.link_view(), mid.link_view(), r1[i].0.address));
                        assert(old(self).entry(i) == r[i].0);
                        assert(old(self).link_view()[old(self).entry(i).address] == i);
                    }
                    assert(self.linked());
                    assert forall|key: PlayerKey|
                        key != user && !holds_player(r, key) implies same_link(
                        self.link_view(),
                        old(self).link_view(),
                        key,
                    ) by {
                        assert forall|k: int| p <= k <= slot implies (#[trigger] r1[k]).0.address
                            != key by {
                            assert(r1[k].0.address == r[k].0.address);
                        }
                        assert(same_link(self.link_view(), mid.link_view(), key));
                    }
                    if new_points >= entry_points(r[slot as int].0, now) {
                        assert(entry_points(e, now) == new_points);
                        assert forall|a: int, b: int|
                            0 <= a < b < r1.len() && a != slot && b != slot implies entry_points(
                            #[trigger] r1[a].0,
                            now,
                        ) >= entry_points(#[trigger] r1[b].0, now) by {
                            assert(r1[a] == r[a]);
                            assert(r1[b] == r[b]);
                        }
                        assert forall|k: int| slot < k < r1.len() implies entry_points(
                            #[trigger] r1[k].0,
                            now,
                        ) <= entry_points(r1[slot as int].0, now) by {
                            assert(r1[k] == r[k]);
                        }
                        lemma_lift_sorted(r1, slot as int, now);
                    }
                }
            }
            let count = self.count;
            let ghost pre_min = *self;
            self.recompute_min(count, now);
            proof {
                Self::lemma_wf_frame(&*self, &pre_min, now);
            }
            return;
        }
        let ghost mid = *self;
        proof {
            if was_wf {
                assert(!holds_player(r, user)) by {
                    if holds_player(r, user) {
                        let j = choose|j: int| 0 <= j < c && (#[trigger] r[j]).0.address == user;
                        assert(old(self).slots@[j] matches Some(f) && f.address == user);
                    }
                }
                assert(mid.linked()) by {
                    assert forall|i: int| 0 <= i < mid.count implies {
                        &&& mid.link_view().contains_key(#[trigger] mid.entry(i).address)
                        &&& mid.link_view()[mid.entry(i).address] == i
                    } by {
                        assert(r[i].0.address != user);
                    }
                }
                Self::lemma_wf_frame(&mid, &mid, now);
                assert(mid.ranked() =~= r);
                assert(mid.wf(now));
            }
        }
        proof {
            if dn {
                assert(mid.ranked() =~= r);
                assert forall|i: int| 0 <= i < MAX_TOP_PLAYERS implies (#[trigger] mid.slots@[i] is Some
                    <==> i < mid.count) by {
                    assert(old(self).slots@[i] is Some <==> i < old(self).count);
                }
            }
        }
        let mut count = self.count;
        if count < MAX_TOP_PLAYERS {
            self.insert_new(user, new_points, count, now);
            return;
        }
        let min_slot = count - 1;
        let mut old_entry = self.slots[min_slot as usize];
        if old_entry.is_none() {
            proof {
                if dn {
                    assert(mid.slots@[min_slot as int] is Some);
                }
            }
            count = self.repair_top_list(now);
            if count < MAX_TOP_PLAYERS {
                self.insert_new(user, new_points, count, now);
                return;
            }
            old_entry = self.slots[min_slot as usize];
        }
        if let Some(old_e) = old_entry {
            let old_pts = Self::entry_points_now(&old_e, now);
            proof {
                if dn {
                    assert(old_e == r[c - 1].0);
                }
            }
            if new_points < old_pts {
                return;
            }
            link_remove(&mut self.links, old_e.address);
            let new_entry = PlayerEntry { address: user, points: new_points, epoch: now };
            self.slots.set(min_slot as usize, Some(new_entry));
            link_set(&mut self.links, user, min_slot);
            self.stamp_seq(min_slot);
            let ghost mid2 = *self;
            let ghost r1 = r.update(c - 1, (e, (old(self).seq_counter + 1) as u64));
            proof {
                if dn {
                    assert(mid2.ranked() =~= r1);
                    assert forall|i: int| 0 <= i < MAX_TOP_PLAYERS implies (#[trigger] mid2.slots@[i] is Some
                        <==> i < mid2.count) by {
                        assert(old(self).slots@[i] is Some <==> i < old(self).count);
                    }
                }
                if was_wf {
                    assert(mid2.ranked() =~= r1);
                    assert forall|i: int| 0 <= i < MAX_TOP_PLAYERS implies (#[trigger] mid2.slots@[i] is Some
                        <==> i < mid2.count) by {
                        assert(old(self).slots@[i] is Some <==> i < old(self).count);
                    }
                    assert(distinct_players(r1)) by {
                        assert forall|a: int, b: int|
                            0 <= a < r1.len() && 0 <= b < r1.len() && a != b implies (
                            #[trigger] r1[a]).0.address != (#[trigger] r1[b]).0.address by {
                            if a != c - 1 {
                                assert(r1[a] == r[a]);
                            }
                            if b != c - 1 {
                                assert(r1[b] == r[b]);
                            }
                        }
                    }
                    assert(mid2.link_view() == old(self).link_view().remove(user).remove(
                        old_e.address,
                    ).insert(user, min_slot));
                }
            }
            self.bubble_up(new_entry, min_slot, now);
            proof {
                if was_wf {
                    let p = rise(r1, r1[c - 1], c - 1, now);
                    lemma_rise(r1, r1[c - 1], c - 1, now);
                    lemma_lift_distinct(r1, c - 1, p);
                    assert forall|i: int| 0 <= i < self.count && !(p <= i <= c - 1) implies {
                        &&& self.link_view().contains_key(#[trigger] self.entry(i).address)
                        &&& self.link_view()[self.entry(i).address] == i
                    } by {
                        assert(self.ranked()[i] == r1[i]);
                        assert(r1[i] == r[i]);
                        assert forall|k: int| p <= k <= c - 1 implies (#[trigger] r1[k]).0.address
                            != r1[i].0.address by {
                        }
                        assert(same_link(self.link_view(), mid2.link_view(), r1[i].0.address));
                        assert(old(self).entry(i) == r[i].0);
                        assert(old(self).link_view()[old(self).entry(i).address] == i);
                        assert(r[i].0.address != r[c - 1].0.address);
                    }
                    assert(self.linked());
                    assert forall|key: PlayerKey|
                        key != user && !holds_player(r, key) implies same_link(
                        self.link_view(),
                        old(self).link_view(),
                        key,
                    ) by {
                        assert forall|k: int| p <= k <= c - 1 implies (#[trigger] r1[k]).0.address
                            != key by {
                            if k != c - 1 {
                                assert(r1[k] == r[k]);
                            }
                        }
                        assert(same_link(self.link_view(), mid2.link_view(), key));
                        assert(key != r[c - 1].0.address);
                    }
                    assert(!self.link_view().contains_key(r[c - 1].0.address)) by {
                        assert forall|k: int| p <= k <= c - 1 implies (#[trigger] r1[k]).0.address
                            != r[c - 1].0.address by {
                            if k != c - 1 {
                                assert(r1[k] == r[k]);
                            }
                        }
                        assert(same_link(self.link_view(), mid2.link_view(), r[c - 1].0.address));
                    }
                    assert(entry_points(e, now) == new_points);
                    assert forall|a: int, b: int|
                        0 <= a < b < r1.len() && a != c - 1 && b != c - 1 implies entry_points(
                        #[trigger] r1[a].0,
                        now,
                    ) >= entry_points(#[trigger] r1[b].0, now) by {
                        assert(r1[a] == r[a]);
                        assert(r1[b] == r[b]);
                    }
                    lemma_lift_sorted(r1, c - 1, now);
                }
            }
            let ghost pre_min = *self;
            self.recompute_min(MAX_TOP_PLAYERS, now);
            proof {
                Self::lemma_wf_frame(&*self, &pre_min, now);
            }
        }
    }

    /// The rank of `user`: one more than the first slot, up to its own, whose
    /// entry has as many points now as its own, so tied players share a rank;
    /// `UNRANKED_RANK` if it is not in the list.
    pub fn get_rank(&mut self, user: PlayerKey, now: u32) -> (rank: u32)
        requires
            old(self).shaped(),
        ensures
            final(self).shaped(),
            final(self).config() == old(self).config(),
            final(self).slots@ == old(self).slots@,
            final(self).seqs@ == old(self).seqs@,
            final(self).count == old(self).count,
            final(self).min_points == old(self).min_points,
            final(self).min_slot == old(self).min_slot,
            final(self).seq_counter == old(self).seq_counter,
            rank == UNRANKED_RANK || 1 <= rank <= MAX_TOP_PLAYERS,
            rank == old(self).rank_of(user, now),
            same_lookups(*final(self), *old(self)),
            match old(self).found_slot(user) {
                None => rank == UNRANKED_RANK,
                Some(s) => first_index(
                    worth_at(old(self).slots@, entry_points(old(self).entry(s), now) as int, now),
                    s + 1,
                ) == Some(rank - 1),
            },
            rank == UNRANKED_RANK ==> forall|k: int|
                0 <= k < old(self).count ==> !(#[trigger] old(self).slots@[k] matches Some(f) && f.address
                    == user),
            rank != UNRANKED_RANK ==> exists|s: int|
                #![trigger old(self).slots@[s]]
                {
                    &&& 0 <= s < MAX_TOP_PLAYERS
                    &&& rank - 1 <= s
                    &&& old(self).slots@[s] matches Some(me)
                    &&& me.address == user
                    &&& old(self).slots@[rank - 1] matches Some(f)
                    &&& entry_points(f, now) == entry_points(me, now)
                    &&& forall|k: int|
                        0 <= k < rank - 1 ==> !(#[trigger] old(self).slots@[k] matches Some(g)
                            && entry_points(g, now) == entry_points(me, now))
                },
            old(self).wf(now) ==> {
                &&& final(self).wf(now)
                &&& (rank == UNRANKED_RANK <==> !holds_player(old(self).ranked(), user))
                &&& forall|i: int|
                    0 <= i < old(self).count && (#[trigger] old(self).ranked()[i]).0.address == user
                        ==> forall|k: int|
                        0 <= k < old(self).count ==> (k < rank - 1 <==> entry_points(
                            #[trigger] old(self).ranked()[k].0,
                            now,
                        ) > entry_points(old(self).ranked()[i].0, now))
            },
    {
        let ghost r = old(self).ranked();
        let found = self.top_slot_entry(user);
        proof {
            if old(self).wf(now) {
                if found is None {
                    assert(self.link_view() == old(self).link_view().remove(user));
                    assert forall|i: int| 0 <= i < self.count implies {
                        &&& self.link_view().contains_key(#[trigger] self.entry(i).address)
                        &&& self.link_view()[self.entry(i).address] == i
                    } by {
                        assert(old(self).slots@[i] matches Some(f) && f.address != user);
                        assert(self.entry(i) == old(self).entry(i));
                        assert(old(self).link_view()[old(self).entry(i).address] == i);
                    }
                    Self::lemma_wf_frame(&*self, &*self, now);
                    assert(self.ranked() =~= r);
                    assert(!holds_player(r, user)) by {
                        if holds_player(r, user) {
                            let j = choose|j: int| 0 <= j < r.len() && (#[trigger] r[j]).0.address == user;
                            assert(old(self).slots@[j] matches Some(f) && f.address == user);
                        }
                    }
                } else {
                    let s = found->Some_0.0;
                    assert(s < old(self).count);
                    assert(old(self).entry(s as int).address == user);
                    assert(old(self).link_view()[old(self).entry(s as int).address] == s);
                    assert(old(self).link_view().insert(user, s) =~= old(self).link_view());
                    assert(self.link_view() == old(self).link_view());
                    Self::lemma_wf_frame(&*self, &*old(self), now);
                }
            }
        }
        let ghost after = *self;
        match found {
            Some((slot, entry)) => {
                let my_pts = Self::entry_points_now(&entry, now);
                let mut s: u32 = 0;
                while s <= slot
                    invariant
                        self.config() == old(self).config(),
                        *self == after,
                        forall|key: PlayerKey| #[trigger] after.found_slot(key) == old(self).found_slot(key),
                        old(self).found_slot(user) == Some(slot as int),
                        old(self).wf(now) ==> after.wf(now),
                        after.shaped(),
                        after.seqs@ == old(self).seqs@,
                        after.count == old(self).count,
                        after.min_points == old(self).min_points,
                        after.min_slot == old(self).min_slot,
                        after.seq_counter == old(self).seq_counter,
                        self.shaped(),
                        slot < MAX_TOP_PLAYERS,
                        s <= slot + 1,
                        self.slots@ == old(self).slots@,
                        old(self).slots@[slot as int] == Some(entry),
                        entry.address == user,
                        r == old(self).ranked(),
                        my_pts == entry_points(entry, now),
                        forall|k: int|
                            0 <= k < s ==> !(#[trigger] old(self).slots@[k] matches Some(g)
                                && entry_points(g, now) == my_pts),
                    decreases slot + 1 - s,
                {
                    if let Some(e) = self.slots[s as usize] {
                        if Self::entry_points_now(&e, now) == my_pts {
                            let rank = s + 1;
                            proof {
                                assert(old(self).slots@[slot as int] matches Some(me) && me.address == user);
                                if old(self).wf(now) {
                                    assert(slot < old(self).count);
                                    assert(r[slot as int].0 == old(self).entry(slot as int));
                                    assert(r[slot as int].0 == entry);
                                    assert forall|i: int|
                                        0 <= i < old(self).count && (#[trigger] r[i]).0.address == user
                                            implies forall|k: int|
                                        0 <= k < old(self).count ==> (k < rank - 1 <==> entry_points(
                                            #[trigger] r[k].0,
                                            now,
                                        ) > entry_points(r[i].0, now)) by {
                                        assert(i == slot);
                                        assert forall|k: int| 0 <= k < old(self).count implies (k < rank
                                            - 1 <==> entry_points(#[trigger] r[k].0, now) > entry_points(
                                            r[i].0,
                                            now,
                                        )) by {
                                            assert(r[k].0 == old(self).entry(k));
                                            assert(old(self).slots@[k] is Some);
                                            assert(r[s as int].0 == e);
                                            if k < s {
                                                assert(entry_points(r[k].0, now) >= entry_points(
                                                    r[s as int].0,
                                                    now,
                                                ));
                                            } else if k > s {
                                                assert(entry_points(r[s as int].0, now) >= entry_points(
                                                    r[k].0,
                                                    now,
                                                ));
                                            }
                                        }
                                    }
                                    assert(holds_player(r, user)) by {
                                        assert(r[slot as int].0.address == user);
                                    }
                                }
                                lemma_first_index_found(
                                    worth_at(old(self).slots@, my_pts as int, now),
                                    s as int,
                                    slot + 1,
                                );
                            }
                            return rank;
                        }
                    }
                    s = s + 1;
                }
                proof {
                    assert(false);
                }
                slot + 1
            },
            None => UNRANKED_RANK,
        }
    }

    /// A page of the list: slots `offset..` up to `page_size` (at most
    /// `MAX_PAGE_SIZE`) entries, each valued now and stamped with `now`;
    /// empty if `offset` is past the end or `page_size` is 0.
    pub fn get_top_players(&self, offset: u32, page_size: u32, now: u32) -> (page: Vec<PlayerEntry>)
        requires
            self.shaped(),
        ensures
            (offset >= self.count || page_size == 0) ==> page@.len() == 0,
            !(offset >= self.count || page_size == 0) ==> {
                let size = if page_size < MAX_PAGE_SIZE { page_size } else { MAX_PAGE_SIZE };
                let end = if offset + size < self.count { offset + size } else { self.count as int };
                &&& page@ == page_of(self.slots@, offset as int, end, now)
                &&& self.dense() ==> page@ == Seq::new(
                    (end - offset) as nat,
                    (|k: int|
                        PlayerEntry {
                            address: self.ranked()[offset + k].0.address,
                            points: entry_points(self.ranked()[offset + k].0, now) as u64,
                            epoch: now,
                        }),
                )
            },
            self.wf(now) ==> forall|i: int, j: int|
                0 <= i < j < page@.len() ==> (#[trigger] page@[i]).points >= (#[trigger] page@[j]).points,
            self.wf(now) ==> forall|i: int, j: int|
                0 <= i < j < page@.len() ==> (#[trigger] page@[i]).address != (#[trigger] page@[j]).address,
    {
        let count = self.count;
        if offset >= count || page_size == 0 {
            return Vec::new();
        }
        let page_size = if page_size < MAX_PAGE_SIZE { page_size } else { MAX_PAGE_SIZE };
        let end = if offset + page_size < count { offset + page_size } else { count };
        let mut result: Vec<PlayerEntry> = Vec::new();
        let mut i = offset;
        while i < end
            invariant
                self.shaped(),
                offset <= i <= end <= count == self.count,
                result@ == page_of(self.slots@, offset as int, i as int, now),
                self.dense() ==> result@.len() == i - offset,
            decreases end - i,
        {
            if let Some(entry) = self.slots[i as usize] {
                let pts = Self::entry_points_now(&entry, now);
                result.push(PlayerEntry { address: entry.address, points: pts, epoch: now });
            }
            i = i + 1;
        }
        proof {
            if self.dense() {
                let want = Seq::new(
                    (end - offset) as nat,
                    |k: int|
                        PlayerEntry {
                            address: self.ranked()[offset + k].0.address,
                            points: entry_points(self.ranked()[offset + k].0, now) as u64,
                            epoch: now,
                        },
                );
                self.lemma_dense_page(offset as int, end as int, now);
                assert(result@ =~= want);
                if self.wf(now) {
                    assert forall|a: int, b: int| 0 <= a < b < result@.len() implies (
                        #[trigger] result@[a]).points >= (#[trigger] result@[b]).points by {
                        assert(result@[a] == want[a]);
                        assert(result@[b] == want[b]);
                        assert(entry_points(self.ranked()[offset + a].0, now) >= entry_points(
                            self.ranked()[offset + b].0,
                            now,
                        ));
                        let ea = self.ranked()[offset + a].0;
                        let eb = self.ranked()[offset + b].0;
                        crate::decay::lemma_decay_monotone(
                            ea.points as nat,
                            ea.points as nat,
                            crate::decay::periods_between(now, ea.epoch),
                        );
                        crate::decay::lemma_decay_monotone(
                            eb.points as nat,
                            eb.points as nat,
                            crate::decay::periods_between(now, eb.epoch),
                        );
                    }
                }
            }
        }
        result
    }

    pub proof fn lemma_dense_page(&self, lo: int, hi: int, now: u32)
        requires
            self.shaped(),
            self.dense(),
            0 <= lo <= hi <= self.count,
        ensures
            page_of(self.slots@, lo, hi, now).len() == hi - lo,
            forall|k: int|
                0 <= k < hi - lo ==> #[trigger] page_of(self.slots@, lo, hi, now)[k] == (PlayerEntry {
                    address: self.ranked()[lo + k].0.address,
                    points: entry_points(self.ranked()[lo + k].0, now) as u64,
                    epoch: now,
                }),
        decreases hi - lo,
    {
        if hi > lo {
            self.lemma_dense_page(lo, hi - 1, now);
            assert(self.slots@[hi - 1] is Some);
        }
    }

    /// Points now held by the weakest ranked entry: the last ranked slot's
    /// value, the cached value if that slot is empty, 0 for an empty list.
    pub fn get_min_points(&self, now: u32) -> (r: u64)
        requires
            self.shaped(),
        ensures
            r == (if self.count == 0 {
                0
            } else {
                match self.slots@[self.count - 1] {
                    Some(e) => entry_points(e, now),
                    None => self.min_points as nat,
                }
            }),
    {
        let count = self.count;
        if count == 0 {
            return 0;
        }
        match &self.slots[(count - 1) as usize] {
            Some(entry) => Self::entry_points_now(entry, now),
            None => self.min_points,
        }
    }

    /// The slot of the weakest ranked entry (0 for an empty list).
    pub fn get_min_slot(&self) -> (r: u32)
        ensures
            r == (if self.count == 0 {
                0
            } else {
                self.count - 1
            }),
    {
        if self.count == 0 {
            0
        } else {
            self.count - 1
        }
    }

    /// Number of ranked players.
    pub fn get_player_count(&self) -> (r: u32)
        ensures
            r == self.count,
    {
        self.count
    }

    /// What `remove_from_list(user, now)` leaves, from `pre` to `post`, given
    /// whether it `found` the player: sizes, configuration and stamps kept, no
    /// link for the player, and, on a list well formed in epoch `now`, the
    /// player's entry removed with the rest closing up in order.
    pub open spec fn removed_from_list(pre: Self, post: Self, user: PlayerKey, found: bool, now: u32) -> bool {
        &&& post.shaped()
        &&& post.config() == pre.config()
        &&& post.seq_counter == pre.seq_counter
        &&& post.count <= pre.count
        &&& !post.link_view().contains_key(user)
        &&& match pre.found_slot(user) {
            None => {
                &&& post.slots@ == pre.slots@
                &&& post.seqs@ == pre.seqs@
                &&& post.count == pre.count
                &&& post.min_points == pre.min_points
                &&& post.min_slot == pre.min_slot
            },
            Some(s) => {
                &&& post.min_cache_fresh(now)
                &&& if s < pre.count {
                    &&& post.slots@ == closed_up(pre.slots@, s, pre.count as int)
                    &&& post.seqs@ == closed_up(pre.seqs@, s, pre.count as int)
                    &&& post.count == pre.count - 1
                } else {
                    &&& post.slots@ == pre.slots@.update(s, None)
                    &&& post.seqs@ == pre.seqs@.update(s, None)
                    &&& post.count == pre.count
                }
            },
        }
        &&& ({
            let r = pre.ranked();
            let c = pre.count as int;
            pre.wf(now) ==> {
                &&& found == holds_player(r, user)
                &&& post.wf(now)
                &&& forall|key: PlayerKey|
                    key != user && !holds_player(r, key) ==> same_link(
                        post.link_view(),
                        pre.link_view(),
                        key,
                    )
                &&& found ==> forall|i: int|
                    0 <= i < c && (#[trigger] r[i]).0.address == user ==> {
                        &&& post.ranked() == r.remove(i)
                        &&& post.count == c - 1
                        &&& post.min_cache_fresh(now)
                    }
                &&& !found ==> {
                    &&& post.ranked() == r
                    &&& post.count == pre.count
                    &&& post.min_points == pre.min_points
                    &&& post.min_slot == pre.min_slot
                }
            }
        })
    }

    /// Take `user` out of the list: the entries below it move up one slot
    /// with their stamps and links, the vacated last slot is cleared, the
    /// count drops by one, the player's link is dropped and the cache
    /// refreshed. Returns whether `user` was found.
    pub fn remove_from_list(&mut self, user: PlayerKey, now: u32) -> (found: bool)
        requires
            old(self).shaped(),
        ensures
            found == old(self).found_slot(user) is Some,
            Self::removed_from_list(*old(self), *final(self), user, found, now),
    {
        let ghost r = old(self).ranked();
        let ghost c = old(self).count as int;
        let ghost was_wf = old(self).wf(now);
        let found = self.top_slot_entry(user);
        match found {
            None => {
                proof {
                    if was_wf {
                        assert(!holds_player(r, user)) by {
                            if holds_player(r, user) {
                                let j = choose|j: int| 0 <= j < r.len() && (#[trigger] r[j]).0.address == user;
                                assert(old(self).slots@[j] matches Some(f) && f.address == user);
                            }
                        }
                        assert forall|i: int| 0 <= i < self.count implies {
                            &&& self.link_view().contains_key(#[trigger] self.entry(i).address)
                            &&& self.link_view()[self.entry(i).address] == i
                        } by {
                            assert(old(self).slots@[i] matches Some(f) && f.address != user);
                            assert(self.entry(i) == old(self).entry(i));
                            assert(old(self).link_view()[old(self).entry(i).address] == i);
                        }
                        Self::lemma_wf_frame(&*self, &*self, now);
                        assert(self.ranked() =~= r);
                    }
                }
                false
            },
            Some((slot, _)) => {
                let ghost mid = *self;
                proof {
                    if was_wf {
                        assert(slot < c);
                        assert(old(self).entry(slot as int).address == user);
                        assert(r[slot as int].0.address == user);
                    }
                }
                let count = self.count;
                let ghost mut lv = mid.link_view();
                if slot < count {
                    let mut s = slot;
                    while s + 1 < count
                        invariant
                            self.config() == old(self).config(),
                            self.shaped(),
                            slot <= s < count == self.count,
                            count == old(self).count,
                            self.seq_counter == old(self).seq_counter,
                            mid.shaped(),
                            mid.slots@ == old(self).slots@,
                            mid.seqs@ == old(self).seqs@,
                            forall|k: int|
                                0 <= k < s ==> #[trigger] self.slots@[k] == (if k < slot {
                                    old(self).slots@[k]
                                } else {
                                    old(self).slots@[k + 1]
                                }),
                            forall|k: int|
                                0 <= k < s ==> #[trigger] self.seqs@[k] == (if k < slot {
                                    old(self).seqs@[k]
                                } else {
                                    old(self).seqs@[k + 1]
                                }),
                            forall|k: int| s < k < MAX_TOP_PLAYERS ==> #[trigger] self.slots@[k] == old(self).slots@[k],
                            forall|k: int| s < k < MAX_TOP_PLAYERS ==> #[trigger] self.seqs@[k] == old(self).seqs@[k],
                            was_wf ==> r == old(self).ranked() && old(self).wf(now),
                            was_wf ==> forall|k: int|
                                slot <= k < s ==> {
                                    &&& self.link_view().contains_key(#[trigger] old(self).entry(k + 1).address)
                                    &&& self.link_view()[old(self).entry(k + 1).address] == k
                                },
                            was_wf ==> forall|key: PlayerKey|
                                (forall|k: int| slot < k <= s ==> (#[trigger] old(self).entry(k)).address != key)
                                    ==> same_link(self.link_view(), mid.link_view(), key),
                        decreases count - s,
                    {
                        let next = self.slots[(s + 1) as usize];
                        let next_seq = self.seqs[(s + 1) as usize];
                        let ghost before = self.link_view();
                        proof {
                            if was_wf {
                                assert forall|key: PlayerKey|
                                    (forall|k: int| slot < k <= s ==> (#[trigger] old(self).entry(k)).address != key)
                                        implies same_link(before, mid.link_view(), key) by {
                                }
                            }
                        }
                        self.slots.set(s as usize, next);
                        self.seqs.set(s as usize, next_seq);
                        if let Some(e) = next {
                            link_set(&mut self.links, e.address, s);
                        }
                        proof {
                            if was_wf {
                                assert(old(self).slots@[s + 1] is Some);
                                assert(next == old(self).slots@[s + 1]);
                                assert forall|k: int| slot <= k < s + 1 implies {
                                    &&& self.link_view().contains_key(#[trigger] old(self).entry(k + 1).address)
                                    &&& self.link_view()[old(self).entry(k + 1).address] == k
                                } by {
                                    if k < s {
                                        assert(r[k + 1].0 == old(self).entry(k + 1));
                                        assert(r[s + 1].0 == old(self).entry(s + 1));
                                        assert(old(self).entry(k + 1).address != old(self).entry(s + 1).address);
                                    }
                                }
                                assert forall|key: PlayerKey|
                                    (forall|k: int| slot < k <= s + 1 ==> (#[trigger] old(self).entry(k)).address != key)
                                        implies same_link(self.link_view(), mid.link_view(), key) by {
                                    assert(old(self).entry(s + 1).address != key);
                                    assert(forall|k: int| slot < k <= s ==> (#[trigger] old(self).entry(k)).address != key);
                                    assert(same_link(before, mid.link_view(), key));
                                }
                            }
                        }
                        s = s + 1;
                    }
                    proof {
                        lv = self.link_view();
                        if was_wf {
                            assert(s == count - 1);
                            assert forall|key: PlayerKey|
                                (forall|k: int| slot < k <= c - 1 ==> (#[trigger] old(self).entry(k)).address != key)
                                    implies same_link(lv, mid.link_view(), key) by {
                                assert(forall|k: int| slot < k <= s ==> (#[trigger] old(self).entry(k)).address != key);
                            }
                            assert forall|k: int| slot <= k < c - 1 implies {
                                &&& lv.contains_key(#[trigger] old(self).entry(k + 1).address)
                                &&& lv[old(self).entry(k + 1).address] == k
                            } by {
                            }
                        }
                    }
                    self.slots.set((count - 1) as usize, None);
                    self.seqs.set((count - 1) as usize, None);
                    self.count = count - 1;
                    proof {
                        assert(self.slots@ =~= closed_up(old(self).slots@, slot as int, count as int));
                        assert(self.seqs@ =~= closed_up(old(self).seqs@, slot as int, count as int));
                    }
                } else {
                    self.slots.set(slot as usize, None);
                    self.seqs.set(slot as usize, None);
                    proof {
                        assert(self.slots@ =~= old(self).slots@.update(slot as int, None));
                        assert(self.seqs@ =~= old(self).seqs@.update(slot as int, None));
                    }
                }
                let ghost pre_remove = *self;
                link_remove(&mut self.links, user);
                proof {
                    if was_wf {
                        assert(pre_remove.link_view() == lv);
                        let r2 = r.remove(slot as int);
                        assert(self.count == c - 1);
                        assert forall|k: int| 0 <= k < MAX_TOP_PLAYERS implies (#[trigger] self.slots@[k] is Some
                            <==> k < self.count) by {
                            assert(old(self).slots@[k] is Some <==> k < old(self).count);
                            if k < self.count && k >= slot {
                                assert(old(self).slots@[k + 1] is Some <==> k + 1 < old(self).count);
                            }
                        }
                        assert forall|k: int| 0 <= k < self.count implies #[trigger] self.ranked()[k] == r2[k] by {
                            if k >= slot {
                                assert(r[k + 1] == (old(self).entry(k + 1), old(self).stamp(k + 1)));
                            }
                        }
                        assert(self.ranked() =~= r2);
                        assert(distinct_players(r2)) by {
                            assert forall|a: int, b: int|
                                0 <= a < r2.len() && 0 <= b < r2.len() && a != b implies (
                                #[trigger] r2[a]).0.address != (#[trigger] r2[b]).0.address by {
                                let a0 = if a < slot { a } else { a + 1 };
                                let b0 = if b < slot { b } else { b + 1 };
                                assert(r2[a] == r[a0]);
                                assert(r2[b] == r[b0]);
                            }
                        }
                        assert(sorted_at(r2, now)) by {
                            assert forall|a: int, b: int| 0 <= a < b < r2.len() implies entry_points(
                                #[trigger] r2[a].0,
                                now,
                            ) >= entry_points(#[trigger] r2[b].0, now) by {
                                let a0 = if a < slot { a } else { a + 1 };
                                let b0 = if b < slot { b } else { b + 1 };
                                assert(r2[a] == r[a0]);
                                assert(r2[b] == r[b0]);
                            }
                        }
                        assert forall|i: int| 0 <= i < self.count implies {
                            &&& self.link_view().contains_key(#[trigger] self.entry(i).address)
                            &&& self.link_view()[self.entry(i).address] == i
                        } by {
                            assert(self.ranked()[i] == r2[i]);
                            if i < slot {
                                assert(r2[i] == r[i]);
                                assert(r[i].0 == old(self).entry(i));
                                assert(r[i].0.address != user);
                                assert forall|k: int| slot < k <= c - 1 implies (#[trigger] old(self).entry(k)).address
                                    != r[i].0.address by {
                                    assert(r[k].0 == old(self).entry(k));
                                }
                                assert(same_link(lv, mid.link_view(), r[i].0.address));
                                assert(mid.link_view() == old(self).link_view().insert(user, slot));
                                assert(old(self).link_view()[old(self).entry(i).address] == i);
                            } else {
                                assert(r2[i] == r[i + 1]);
                                assert(r[i + 1].0 == old(self).entry(i + 1));
                                assert(r[i + 1].0.address != user);
                            }
                        }
                        assert(self.linked());
                        assert forall|key: PlayerKey|
                            key != user && !holds_player(r, key) implies same_link(
                            self.link_view(),
                            old(self).link_view(),
                            key,
                        ) by {
                            assert forall|k: int| slot < k <= c - 1 implies (#[trigger] old(self).entry(k)).address
                                != key by {
                                assert(r[k].0 == old(self).entry(k));
                            }
                            assert(same_link(lv, mid.link_view(), key));
                        }
                        assert(holds_player(r, user)) by {
                            assert(r[slot as int].0.address == user);
                        }
                        assert forall|i: int| 0 <= i < c && (#[trigger] r[i]).0.address == user implies i
                            == slot by {
                        }
                    }
                }
                let new_count = self.count;
                let ghost pre_min = *self;
                self.recompute_min(new_count, now);
                proof {
                    Self::lemma_wf_frame(&*self, &pre_min, now);
                }
                true
            },
        }
    }
}

} // verus!

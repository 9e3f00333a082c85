//! Ordered sequences of ranked entries: the order the top list keeps, the
//! move an improved entry makes, and the facts the list operations rest on.
use vstd::prelude::*;
use crate::decay::entry_points;
use crate::types::{PlayerEntry, PlayerKey};

verus! {

/// A ranked entry together with its insertion stamp.
pub type Ranked = (PlayerEntry, u64);

/// Whether `a` sorts above `b` in epoch `now`: more points, or as many points
/// and a later insertion stamp.
pub open spec fn beats(a: Ranked, b: Ranked, now: u32) -> bool {
    entry_points(a.0, now) > entry_points(b.0, now) || (entry_points(a.0, now) == entry_points(
        b.0,
        now,
    ) && a.1 > b.1)
}

/// The position `e`, placed at index `i` of `r`, rises to: past every entry
/// directly above it that it beats.
pub open spec fn rise(r: Seq<Ranked>, e: Ranked, i: int, now: u32) -> int
    decreases i,
{
    if i <= 0 {
        0
    } else if beats(e, r[i - 1], now) {
        rise(r, e, i - 1, now)
    } else {
        i
    }
}

/// Element `k` of `r` after its element at `i` moves up to position `p`.
pub open spec fn lifted_at(r: Seq<Ranked>, i: int, p: int, k: int) -> Ranked {
    if k < p {
        r[k]
    } else if k == p {
        r[i]
    } else if k <= i {
        r[k - 1]
    } else {
        r[k]
    }
}

/// `r` with its element at `i` moved up to position `p`, the elements in
/// between shifted down by one.
pub open spec fn lifted(r: Seq<Ranked>, i: int, p: int) -> Seq<Ranked> {
    Seq::new(r.len(), |k: int| lifted_at(r, i, p, k))
}

/// `key` has the same link, or lack of one, in both maps.
pub open spec fn same_link(m1: Map<PlayerKey, u32>, m2: Map<PlayerKey, u32>, key: PlayerKey) -> bool {
    &&& m1.contains_key(key) == m2.contains_key(key)
    &&& m1.contains_key(key) ==> m1[key] == m2[key]
}

/// Descending order of points in epoch `now`.
pub open spec fn sorted_at(r: Seq<Ranked>, now: u32) -> bool {
    forall|i: int, j: int|
        0 <= i < j < r.len() ==> entry_points(#[trigger] r[i].0, now) >= entry_points(
            #[trigger] r[j].0,
            now,
        )
}

/// No player appears twice.
pub open spec fn distinct_players(r: Seq<Ranked>) -> bool {
    forall|i: int, j: int|
        0 <= i < r.len() && 0 <= j < r.len() && i != j ==> (#[trigger] r[i]).0.address != (
        #[trigger] r[j]).0.address
}

/// Whether `player` is in `r`.
pub open spec fn holds_player(r: Seq<Ranked>, player: PlayerKey) -> bool {
    exists|i: int| 0 <= i < r.len() && (#[trigger] r[i]).0.address == player
}


pub proof fn lemma_rise(r: Seq<Ranked>, e: Ranked, i: int, now: u32)
    requires
        0 <= i <= r.len(),
    ensures
        0 <= rise(r, e, i, now) <= i,
        forall|k: int| rise(r, e, i, now) <= k < i ==> beats(e, #[trigger] r[k], now),
        rise(r, e, i, now) > 0 ==> !beats(e, r[rise(r, e, i, now) - 1], now),
    decreases i,
{
    if i > 0 && beats(e, r[i - 1], now) {
        lemma_rise(r, e, i - 1, now);
    }
}

/// How far an entry rises depends only on the entries above its start.
pub proof fn lemma_rise_prefix(r: Seq<Ranked>, s: Seq<Ranked>, e: Ranked, i: int, now: u32)
    requires
        forall|k: int| 0 <= k < i ==> r[k] == s[k],
    ensures
        rise(r, e, i, now) == rise(s, e, i, now),
    decreases i,
{
    if i > 0 {
        assert(r[i - 1] == s[i - 1]);
        lemma_rise_prefix(r, s, e, i - 1, now);
    }
}

/// Moving an entry up to the position it rises to yields a list in
/// descending order, provided the rest of the list was in order and nothing
/// below the entry outranks it.
pub proof fn lemma_lift_sorted(r: Seq<Ranked>, i: int, now: u32)
    requires
        0 <= i < r.len(),
        forall|a: int, b: int|
            0 <= a < b < r.len() && a != i && b != i ==> entry_points(#[trigger] r[a].0, now)
                >= entry_points(#[trigger] r[b].0, now),
        forall|k: int| i < k < r.len() ==> entry_points(#[trigger] r[k].0, now) <= entry_points(
            r[i].0,
            now,
        ),
    ensures
        sorted_at(lifted(r, i, rise(r, r[i], i, now)), now),
{
    let p = rise(r, r[i], i, now);
    lemma_rise(r, r[i], i, now);
    let l = lifted(r, i, p);
    assert forall|a: int, b: int| 0 <= a < b < l.len() implies entry_points(#[trigger] l[a].0, now)
        >= entry_points(#[trigger] l[b].0, now) by {
        assert(l[a] == lifted_at(r, i, p, a));
        assert(l[b] == lifted_at(r, i, p, b));
        if a == p {
            if b <= i {
                assert(beats(r[i], r[b - 1], now));
            } else {
                assert(entry_points(r[b].0, now) <= entry_points(r[i].0, now));
            }
        } else if b == p {
            assert(!beats(r[i], r[p - 1], now));
            if a < p - 1 {
                assert(entry_points(r[a].0, now) >= entry_points(r[p - 1].0, now));
            }
        } else {
            let ma = if a < p { a } else if a <= i { a - 1 } else { a };
            let mb = if b < p { b } else if b <= i { b - 1 } else { b };
            assert(l[a] == r[ma]);
            assert(l[b] == r[mb]);
            assert(ma < mb);
            assert(ma != i && mb != i);
        }
    }
}

/// Moving an entry up keeps players distinct.
pub proof fn lemma_lift_distinct(r: Seq<Ranked>, i: int, p: int)
    requires
        0 <= p <= i < r.len(),
        distinct_players(r),
    ensures
        distinct_players(lifted(r, i, p)),
        lifted(r, i, p).len() == r.len(),
        forall|k: int| 0 <= k < r.len() ==> #[trigger] lifted(r, i, p)[k] == r[if k < p {
            k
        } else if k == p {
            i
        } else if k <= i {
            k - 1
        } else {
            k
        }],
{
    let l = lifted(r, i, p);
    assert forall|a: int, b: int|
        0 <= a < l.len() && 0 <= b < l.len() && a != b implies (#[trigger] l[a]).0.address != (
        #[trigger] l[b]).0.address by {
        let ma = if a < p { a } else if a == p { i } else if a <= i { a - 1 } else { a };
        let mb = if b < p { b } else if b == p { i } else if b <= i { b - 1 } else { b };
        assert(l[a] == r[ma]);
        assert(l[b] == r[mb]);
        assert(ma != mb);
    }
}

/// `player` occurs in `r` at index `i`, and nowhere else if `r` is distinct.
pub proof fn lemma_unique_index(r: Seq<Ranked>, player: PlayerKey, i: int, j: int)
    requires
        distinct_players(r),
        0 <= i < r.len(),
        0 <= j < r.len(),
        r[i].0.address == player,
        r[j].0.address == player,
    ensures
        i == j,
{
}

/// `perm` is a permutation of `0..n`.
pub open spec fn is_permutation(perm: Seq<int>, n: int) -> bool {
    &&& perm.len() == n
    &&& forall|k: int| 0 <= k < n ==> 0 <= #[trigger] perm[k] < n
    &&& forall|a: int, b: int| 0 <= a < n && 0 <= b < n && a != b ==> perm[a] != perm[b]
}

/// `r` holds the elements of `s` in some order.
pub open spec fn reorders(r: Seq<Ranked>, s: Seq<Ranked>) -> bool {
    &&& r.len() == s.len()
    &&& exists|perm: Seq<int>|
        is_permutation(perm, s.len() as int) && forall|k: int|
            0 <= k < r.len() ==> #[trigger] r[k] == s[perm[k]]
}

/// A reordering of distinct players is distinct, and holds only players of
/// the sequence it reorders.
pub proof fn lemma_reorders_distinct(r: Seq<Ranked>, s: Seq<Ranked>)
    requires
        reorders(r, s),
        distinct_players(s),
    ensures
        distinct_players(r),
        forall|key: PlayerKey| holds_player(r, key) ==> holds_player(s, key),
{
    let perm = choose|perm: Seq<int>|
        is_permutation(perm, s.len() as int) && forall|k: int|
            0 <= k < r.len() ==> #[trigger] r[k] == s[perm[k]];
    assert forall|a: int, b: int|
        0 <= a < r.len() && 0 <= b < r.len() && a != b implies (#[trigger] r[a]).0.address != (
        #[trigger] r[b]).0.address by {
        assert(r[a] == s[perm[a]]);
        assert(r[b] == s[perm[b]]);
    }
    assert forall|key: PlayerKey| holds_player(r, key) implies holds_player(s, key) by {
        let i = choose|i: int| 0 <= i < r.len() && (#[trigger] r[i]).0.address == key;
        assert(r[i] == s[perm[i]]);
    }
}

/// The first index below `k` at which `p` holds.
pub open spec fn first_index(p: spec_fn(int) -> bool, k: int) -> Option<int>
    decreases k,
{
    if k <= 0 {
        None
    } else {
        match first_index(p, k - 1) {
            Some(i) => Some(i),
            None => if p(k - 1) {
                Some(k - 1)
            } else {
                None
            },
        }
    }
}

/// No index below `k` satisfies `p`: there is no first one.
pub proof fn lemma_first_index_none(p: spec_fn(int) -> bool, k: int)
    requires
        forall|i: int| 0 <= i < k ==> !#[trigger] p(i),
    ensures
        first_index(p, k) is None,
    decreases k,
{
    if k > 0 {
        lemma_first_index_none(p, k - 1);
    }
}

/// `s` is the first index satisfying `p`, for every bound above it.
pub proof fn lemma_first_index_found(p: spec_fn(int) -> bool, s: int, k: int)
    requires
        0 <= s < k,
        forall|i: int| 0 <= i < s ==> !#[trigger] p(i),
        p(s),
    ensures
        first_index(p, k) == Some(s),
    decreases k,
{
    if k == s + 1 {
        lemma_first_index_none(p, s);
    } else {
        lemma_first_index_found(p, s, k - 1);
    }
}

/// The index of the first entry of `s[i..j]` worth the most points in
/// epoch `now` (a later entry takes over only with strictly more points).
pub open spec fn first_best(s: Seq<Ranked>, i: int, j: int, now: u32) -> int
    decreases j - i,
{
    if j <= i + 1 {
        i
    } else {
        let m = first_best(s, i, j - 1, now);
        if entry_points(s[j - 1].0, now) > entry_points(s[m].0, now) {
            j - 1
        } else {
            m
        }
    }
}

/// The first best of `s[i..j]` lies in `i..j`.
pub proof fn lemma_first_best_in_range(s: Seq<Ranked>, i: int, j: int, now: u32)
    requires
        i < j,
    ensures
        i <= first_best(s, i, j, now) < j,
    decreases j - i,
{
    if j > i + 1 {
        lemma_first_best_in_range(s, i, j - 1, now);
    }
}

/// `s` put in descending order by selection from position `i` on: at each
/// position the first best of the rest is swapped in.
pub open spec fn selection_sorted(s: Seq<Ranked>, i: int, now: u32) -> Seq<Ranked>
    decreases s.len() - i,
{
    if i < 0 || i >= s.len() {
        s
    } else {
        let m = first_best(s, i, s.len() as int, now);
        proof {
            lemma_first_best_in_range(s, i, s.len() as int, now);
        }
        selection_sorted(s.update(i, s[m]).update(m, s[i]), i + 1, now)
    }
}

/// A player in `r` has a last place in it.
pub proof fn lemma_last_place(r: Seq<Ranked>, player: PlayerKey)
    requires
        holds_player(r, player),
    ensures
        exists|k: int|
            0 <= k < r.len() && (#[trigger] r[k]).0.address == player && forall|m: int|
                k < m < r.len() ==> (#[trigger] r[m]).0.address != player,
    decreases r.len(),
{
    let n = r.len() as int;
    if r[n - 1].0.address == player {
        assert(r[n - 1].0.address == player);
    } else {
        let s = r.drop_last();
        let i = choose|i: int| 0 <= i < r.len() && (#[trigger] r[i]).0.address == player;
        assert(s[i] == r[i]);
        lemma_last_place(s, player);
        let k = choose|k: int|
            0 <= k < s.len() && (#[trigger] s[k]).0.address == player && forall|m: int|
                k < m < s.len() ==> (#[trigger] s[m]).0.address != player;
        assert(r[k] == s[k]);
        assert forall|m: int| k < m < r.len() implies (#[trigger] r[m]).0.address != player by {
            if m < n - 1 {
                assert(r[m] == s[m]);
            }
        }
    }
}

} // verus!

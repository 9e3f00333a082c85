//! Time decay of scores: each whole period keeps nine tenths of a score,
//! rounded down, and a score idle for `DECAY_ZERO_AFTER_PERIODS` periods is 0
//! (as repeated decay would have made it anyway).
use vstd::prelude::*;
use crate::board::LeaderboardContract;
use crate::types::PlayerEntry;
use crate::{DECAY_PERIOD_LEDGERS, DECAY_RETAIN_DEN, DECAY_RETAIN_NUM, DECAY_ZERO_AFTER_PERIODS};

verus! {

/// One period of decay applied to `v`.
pub open spec fn retain_once(v: nat) -> nat {
    (v * (DECAY_RETAIN_NUM as nat) / (DECAY_RETAIN_DEN as nat)) as nat
}

/// `k` periods of decay applied to `v`, with no cut-off.
pub open spec fn retain_steps(v: nat, k: nat) -> nat
    decreases k,
{
    if k == 0 {
        v
    } else {
        retain_once(retain_steps(v, (k - 1) as nat))
    }
}

/// The value of a score `points` after `periods` idle periods.
pub open spec fn decayed(points: nat, periods: nat) -> nat {
    if periods >= DECAY_ZERO_AFTER_PERIODS {
        0
    } else {
        retain_steps(points, periods)
    }
}

/// Periods elapsed from epoch `from` to epoch `now` (none if `from` is later).
pub open spec fn periods_between(now: u32, from: u32) -> nat {
    if now >= from {
        (now - from) as nat
    } else {
        0
    }
}

/// The points an entry is worth in epoch `now`.
pub open spec fn entry_points(e: PlayerEntry, now: u32) -> nat {
    decayed(e.points as nat, periods_between(now, e.epoch))
}

/// The decay epoch of a ledger sequence number.
pub open spec fn epoch_of(ledger_sequence: u32) -> u32 {
    ledger_sequence / DECAY_PERIOD_LEDGERS
}

pub proof fn lemma_retain_once_monotone(a: nat, b: nat)
    requires
        a <= b,
    ensures
        retain_once(a) <= retain_once(b),
        retain_once(a) <= a,
{
    assert(a * 9 <= b * 9);
    vstd::arithmetic::div_mod::lemma_div_is_ordered((a * 9) as int, (b * 9) as int, 10);
    assert((a * 9) / 10 <= a) by {
        vstd::arithmetic::div_mod::lemma_div_is_ordered((a * 9) as int, (a * 10) as int, 10);
        vstd::arithmetic::div_mod::lemma_div_multiples_vanish(a as int, 10);
    }
}

pub proof fn lemma_retain_steps_bounded(v: nat, k: nat)
    ensures
        retain_steps(v, k) <= v,
    decreases k,
{
    if k > 0 {
        lemma_retain_steps_bounded(v, (k - 1) as nat);
        lemma_retain_once_monotone(retain_steps(v, (k - 1) as nat), retain_steps(v, (k - 1) as nat));
    }
}

pub proof fn lemma_retain_steps_zero_stays(v: nat, i: nat, k: nat)
    requires
        i <= k,
        retain_steps(v, i) == 0,
    ensures
        retain_steps(v, k) == 0,
    decreases k,
{
    if k > i {
        lemma_retain_steps_zero_stays(v, i, (k - 1) as nat);
    }
}

/// Decay composes: `a` periods and then `b` more are `a + b` periods.
pub proof fn lemma_retain_steps_compose(v: nat, a: nat, b: nat)
    ensures
        retain_steps(retain_steps(v, a), b) == retain_steps(v, a + b),
    decreases b,
{
    if b > 0 {
        lemma_retain_steps_compose(v, a, (b - 1) as nat);
        assert((a + b - 1) as nat == a + (b - 1) as nat);
    }
}

/// More points stay at least as many points after the same number of
/// periods without cut-off.
pub proof fn lemma_retain_steps_monotone(p1: nat, p2: nat, k: nat)
    requires
        p1 <= p2,
    ensures
        retain_steps(p1, k) <= retain_steps(p2, k),
    decreases k,
{
    if k > 0 {
        lemma_retain_steps_monotone(p1, p2, (k - 1) as nat);
        lemma_retain_once_monotone(retain_steps(p1, (k - 1) as nat), retain_steps(p2, (k - 1) as nat));
    }
}

/// One period keeps at most nine tenths of a score.
pub proof fn lemma_retain_once_scaled(v: nat)
    ensures
        retain_once(v) * 10 <= v * 9,
{
    vstd::arithmetic::div_mod::lemma_fundamental_div_mod((v * 9) as int, 10);
}

/// Seven periods take at least half of a score.
pub proof fn lemma_retain_seven_halves(v: nat)
    ensures
        retain_steps(v, 7) * 2 <= v,
{
    let x1 = retain_steps(v, 1);
    let x2 = retain_steps(v, 2);
    let x3 = retain_steps(v, 3);
    let x4 = retain_steps(v, 4);
    let x5 = retain_steps(v, 5);
    let x6 = retain_steps(v, 6);
    let x7 = retain_steps(v, 7);
    assert(retain_steps(v, 0) == v);
    lemma_retain_once_scaled(v);
    lemma_retain_once_scaled(x1);
    lemma_retain_once_scaled(x2);
    lemma_retain_once_scaled(x3);
    lemma_retain_once_scaled(x4);
    lemma_retain_once_scaled(x5);
    lemma_retain_once_scaled(x6);
    assert(x1 * 10 <= v * 9);
    assert(x2 * 10 <= x1 * 9);
    assert(x3 * 10 <= x2 * 9);
    assert(x4 * 10 <= x3 * 9);
    assert(x5 * 10 <= x4 * 9);
    assert(x6 * 10 <= x5 * 9);
    assert(x7 * 10 <= x6 * 9);
}

/// `2` raised to `j`.
pub open spec fn two_to(j: nat) -> nat
    decreases j,
{
    if j == 0 {
        1
    } else {
        2 * two_to((j - 1) as nat)
    }
}

/// A score below `2^j` is 0 after `7 * j` periods.
pub proof fn lemma_retain_clears_bits(v: nat, j: nat)
    requires
        v < two_to(j),
    ensures
        retain_steps(v, 7 * j) == 0,
    decreases j,
{
    if j == 0 {
        assert(v == 0);
    } else {
        let y = retain_steps(v, 7);
        lemma_retain_seven_halves(v);
        lemma_retain_clears_bits(y, (j - 1) as nat);
        lemma_retain_steps_compose(v, 7, 7 * (j - 1) as nat);
        assert(7 + 7 * (j - 1) as nat == 7 * j);
    }
}

/// The cut-off changes no value: for every score a `u64` can hold, decay is
/// plain repeated decay.
pub proof fn lemma_decayed_without_cut_off(p: nat, k: nat)
    requires
        p <= u64::MAX,
    ensures
        decayed(p, k) == retain_steps(p, k),
{
    if k >= DECAY_ZERO_AFTER_PERIODS {
        assert(two_to(64) == 0x1_0000_0000_0000_0000) by {
            reveal_with_fuel(two_to, 65);
        }
        lemma_retain_clears_bits(p, 64);
        lemma_retain_steps_zero_stays(p, 448, k);
    }
}

/// Decay never raises a score, and keeps the order of two scores: a larger
/// score is still at least as large after the same number of periods.
pub proof fn lemma_decay_monotone(p1: nat, p2: nat, k: nat)
    requires
        p1 <= p2,
    ensures
        decayed(p1, k) <= decayed(p2, k),
        decayed(p1, k) <= p1,
    decreases k,
{
    lemma_retain_steps_bounded(p1, k);
    if k > 0 && k < DECAY_ZERO_AFTER_PERIODS {
        lemma_decay_monotone(p1, p2, (k - 1) as nat);
        lemma_retain_once_monotone(retain_steps(p1, (k - 1) as nat), retain_steps(p2, (k - 1) as nat));
    }
}

/// A score only loses value as more periods pass.
pub proof fn lemma_decay_antitone_in_periods(p: nat, k1: nat, k2: nat)
    requires
        k1 <= k2,
    ensures
        decayed(p, k2) <= decayed(p, k1),
    decreases k2,
{
    if k2 > k1 && k2 < DECAY_ZERO_AFTER_PERIODS {
        lemma_decay_antitone_in_periods(p, k1, (k2 - 1) as nat);
        lemma_retain_once_monotone(retain_steps(p, (k2 - 1) as nat), retain_steps(p, (k2 - 1) as nat));
    }
}

impl LeaderboardContract {
    /// The value of `points` after `periods` idle periods.
    pub fn decay(points: u64, periods: u32) -> (r: u64)
        ensures
            r == decayed(points as nat, periods as nat),
    {
        if points == 0 || periods == 0 {
            proof {
                if points == 0 {
                    lemma_retain_steps_bounded(0, periods as nat);
                }
            }
            return points;
        }
        if periods >= DECAY_ZERO_AFTER_PERIODS {
            return 0;
        }
        let mut value: u128 = points as u128;
        let mut i: u32 = 0;
        while i < periods
            invariant
                i <= periods,
                periods < DECAY_ZERO_AFTER_PERIODS,
                value == retain_steps(points as nat, i as nat),
                value <= points,
            decreases periods - i,
        {
            proof {
                lemma_retain_once_monotone(value as nat, value as nat);
            }
            value = value * (DECAY_RETAIN_NUM as u128) / (DECAY_RETAIN_DEN as u128);
            i = i + 1;
            if value == 0 {
                proof {
                    lemma_retain_steps_zero_stays(points as nat, i as nat, periods as nat);
                }
                return 0;
            }
        }
        value as u64
    }

    /// The decay epoch of a ledger sequence number.
    pub fn current_epoch(ledger_sequence: u32) -> (r: u32)
        ensures
            r == epoch_of(ledger_sequence),
            r * DECAY_PERIOD_LEDGERS <= ledger_sequence < (r + 1) * DECAY_PERIOD_LEDGERS,
    {
        proof {
            vstd::arithmetic::div_mod::lemma_fundamental_div_mod(
                ledger_sequence as int,
                DECAY_PERIOD_LEDGERS as int,
            );
        }
        ledger_sequence / DECAY_PERIOD_LEDGERS
    }

    /// The points an entry is worth in epoch `now`.
    pub fn entry_points_now(entry: &PlayerEntry, now: u32) -> (r: u64)
        ensures
            r == entry_points(*entry, now),
    {
        LeaderboardContract::decay(entry.points, now.saturating_sub(entry.epoch))
    }
}

} // verus!

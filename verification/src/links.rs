//! The reverse index of the top list: for a player, the slot that holds it.
//! Kept as a list of links with distinct players, viewed as a map.
use vstd::prelude::*;
use crate::types::PlayerKey;

verus! {

/// `player` is held in slot `slot` of the top list.
#[derive(Clone, Copy, Debug, PartialEq, Eq, Structural)]
pub struct SlotLink {
    pub player: PlayerKey,
    pub slot: u32,
}

/// No player has two links.
pub open spec fn links_distinct(l: Seq<SlotLink>) -> bool {
    forall|i: int, j: int| 0 <= i < l.len() && 0 <= j < l.len() && i != j ==> l[i].player != l[j].player
}

/// The links as a map from player to slot.
pub open spec fn link_map(l: Seq<SlotLink>) -> Map<PlayerKey, u32> {
    Map::new(
        |k: PlayerKey| exists|i: int| 0 <= i < l.len() && l[i].player == k,
        |k: PlayerKey| l[choose|i: int| 0 <= i < l.len() && l[i].player == k].slot,
    )
}

pub proof fn lemma_link_at(l: Seq<SlotLink>, i: int)
    requires
        links_distinct(l),
        0 <= i < l.len(),
    ensures
        link_map(l).contains_key(l[i].player),
        link_map(l)[l[i].player] == l[i].slot,
{
    let k = l[i].player;
    assert(exists|j: int| 0 <= j < l.len() && l[j].player == k);
    let j = choose|j: int| 0 <= j < l.len() && l[j].player == k;
    assert(j == i);
}

pub proof fn lemma_link_absent(l: Seq<SlotLink>, k: PlayerKey)
    requires
        forall|i: int| 0 <= i < l.len() ==> l[i].player != k,
    ensures
        !link_map(l).contains_key(k),
{
}

pub proof fn lemma_link_update(l: Seq<SlotLink>, i: int, s: u32)
    requires
        links_distinct(l),
        0 <= i < l.len(),
    ensures
        links_distinct(l.update(i, SlotLink { player: l[i].player, slot: s })),
        link_map(l.update(i, SlotLink { player: l[i].player, slot: s })) == link_map(l).insert(
            l[i].player,
            s,
        ),
{
    let k = l[i].player;
    let l2 = l.update(i, SlotLink { player: k, slot: s });
    assert forall|key: PlayerKey| link_map(l2).contains_key(key) implies link_map(l2)[key]
        == link_map(l).insert(k, s)[key] by {
        let j = choose|j: int| 0 <= j < l2.len() && l2[j].player == key;
        lemma_link_at(l2, j);
        if j != i {
            lemma_link_at(l, j);
        }
    }
    assert forall|key: PlayerKey| link_map(l).insert(k, s).contains_key(key) implies link_map(
        l2,
    ).contains_key(key) by {
        if key != k {
            let j = choose|j: int| 0 <= j < l.len() && l[j].player == key;
            assert(l2[j].player == key);
        } else {
            assert(l2[i].player == key);
        }
    }
    assert(link_map(l2) =~= link_map(l).insert(k, s));
}

pub proof fn lemma_link_push(l: Seq<SlotLink>, x: SlotLink)
    requires
        links_distinct(l),
        !link_map(l).contains_key(x.player),
    ensures
        links_distinct(l.push(x)),
        link_map(l.push(x)) == link_map(l).insert(x.player, x.slot),
{
    let l2 = l.push(x);
    assert forall|i: int| 0 <= i < l.len() implies l[i].player != x.player by {
        if l[i].player == x.player {
            assert(link_map(l).contains_key(x.player));
        }
    }
    assert forall|key: PlayerKey| link_map(l2).contains_key(key) implies link_map(l2)[key]
        == link_map(l).insert(x.player, x.slot)[key] by {
        let j = choose|j: int| 0 <= j < l2.len() && l2[j].player == key;
        lemma_link_at(l2, j);
        if j < l.len() {
            lemma_link_at(l, j);
        }
    }
    assert forall|key: PlayerKey| link_map(l).insert(x.player, x.slot).contains_key(key) implies link_map(
        l2,
    ).contains_key(key) by {
        if key != x.player {
            let j = choose|j: int| 0 <= j < l.len() && l[j].player == key;
            assert(l2[j].player == key);
        } else {
            assert(l2[l.len() as int].player == key);
        }
    }
    assert(link_map(l2) =~= link_map(l).insert(x.player, x.slot));
}

pub proof fn lemma_link_remove(l: Seq<SlotLink>, i: int)
    requires
        links_distinct(l),
        0 <= i < l.len(),
    ensures
        links_distinct(l.remove(i)),
        link_map(l.remove(i)) == link_map(l).remove(l[i].player),
{
    let k = l[i].player;
    let l2 = l.remove(i);
    assert forall|a: int, b: int|
        0 <= a < l2.len() && 0 <= b < l2.len() && a != b implies l2[a].player != l2[b].player by {
        let a0 = if a < i { a } else { a + 1 };
        let b0 = if b < i { b } else { b + 1 };
        assert(l2[a] == l[a0]);
        assert(l2[b] == l[b0]);
    }
    assert forall|key: PlayerKey| link_map(l2).contains_key(key) implies link_map(l).remove(
        k,
    ).contains_key(key) && link_map(l2)[key] == link_map(l).remove(k)[key] by {
        let j = choose|j: int| 0 <= j < l2.len() && l2[j].player == key;
        let j0 = if j < i { j } else { j + 1 };
        assert(l2[j] == l[j0]);
        lemma_link_at(l2, j);
        lemma_link_at(l, j0);
    }
    assert forall|key: PlayerKey| link_map(l).remove(k).contains_key(key) implies link_map(
        l2,
    ).contains_key(key) by {
        let j = choose|j: int| 0 <= j < l.len() && l[j].player == key;
        assert(j != i);
        let j2 = if j < i { j } else { j - 1 };
        assert(l2[j2] == l[j]);
    }
    assert(link_map(l2) =~= link_map(l).remove(k));
}

/// The slot linked to `player`, if any.
pub fn link_get(links: &Vec<SlotLink>, player: PlayerKey) -> (r: Option<u32>)
    requires
        links_distinct(links@),
    ensures
        r == (if link_map(links@).contains_key(player) {
            Some(link_map(links@)[player])
        } else {
            None::<u32>
        }),
{
    let mut i: usize = 0;
    while i < links.len()
        invariant
            i <= links.len(),
            links_distinct(links@),
            forall|j: int| 0 <= j < i ==> links@[j].player != player,
        decreases links.len() - i,
    {
        if links[i].player == player {
            proof {
                lemma_link_at(links@, i as int);
            }
            return Some(links[i].slot);
        }
        i = i + 1;
    }
    None
}

/// Link `player` to `slot`, replacing any link it had.
pub fn link_set(links: &mut Vec<SlotLink>, player: PlayerKey, slot: u32)
    requires
        links_distinct(old(links)@),
    ensures
        links_distinct(final(links)@),
        link_map(final(links)@) == link_map(old(links)@).insert(player, slot),
{
    let mut i: usize = 0;
    while i < links.len()
        invariant
            i <= links.len(),
            links@ == old(links)@,
            links_distinct(links@),
            forall|j: int| 0 <= j < i ==> links@[j].player != player,
        decreases links.len() - i,
    {
        if links[i].player == player {
            proof {
                lemma_link_update(links@, i as int, slot);
            }
            links.set(i, SlotLink { player, slot });
            return;
        }
        i = i + 1;
    }
    proof {
        lemma_link_absent(links@, player);
        lemma_link_push(links@, SlotLink { player, slot });
    }
    links.push(SlotLink { player, slot });
}

/// Drop the link of `player`, if it has one.
pub fn link_remove(links: &mut Vec<SlotLink>, player: PlayerKey)
    requires
        links_distinct(old(links)@),
    ensures
        links_distinct(final(links)@),
        link_map(final(links)@) == link_map(old(links)@).remove(player),
{
    let mut i: usize = 0;
    while i < links.len()
        invariant
            i <= links.len(),
            links@ == old(links)@,
            links_distinct(links@),
            forall|j: int| 0 <= j < i ==> links@[j].player != player,
        decreases links.len() - i,
    {
        if links[i].player == player {
            proof {
                lemma_link_remove(links@, i as int);
            }
            links.remove(i);
            return;
        }
        i = i + 1;
    }
    proof {
        lemma_link_absent(links@, player);
        assert(link_map(links@).remove(player) =~= link_map(links@));
    }
}

} // verus!

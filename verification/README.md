# leaderboard

A verified model of a decaying top-50 leaderboard contract, written in Verus.

- `src/` is the verified library. `types.rs` holds the plain data types,
  `decay.rs` the time decay of scores, `links.rs` the reverse index from
  player to slot, `ranking.rs` the order the list keeps and the facts about
  moving an entry up, `board.rs` the contract state and the top-list
  operations, `player.rs` per-player statistics and queued rewards,
  `contract.rs` the contract's operations, and `laws.rs` properties that
  relate several operations.
- `app/` is the Soroban contract around the library: it reads the storage an
  operation needs into the library's plain state, lets the library decide,
  writes back what changed, authenticates callers, publishes events and asks
  the reward token to mint.
- `tests/` exercises the library on concrete values.

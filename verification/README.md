# lotto_lunes

The verified core of two lottery contracts for the Lunes chain.

- `src/lotto_lunes.rs`: the Lotto Lunes contract. Players buy tickets of six
  numbers from 1 to 60, paying the price plus a fee; an authorized account
  opens raffles and records their prizes; the draw picks six distinct numbers;
  a payment settles a player's tickets by their number of hits.
- `src/lunes_lotto.rs`: the Lunes Lotto contract. Raffles, tickets and
  winners are lists; the draw uses a linear congruential generator seeded
  from the Keccak-256 hash of the last buyer (computed by `ink`); a draw's pot
  is shared among five prize classes.
- `src/table.rs`: the keyed tables in which the first contract keeps players,
  draws and prizes.
- `src/common.rs`: accounts, payments to send, owner checks and the number
  scrambling shared by both draws.
- `app/`: the chain side: reading the call's environment, keeping the state
  in contract storage and sending the payments that the library orders.

Every operation takes the call's environment (caller, value sent, block time
and number) as arguments and returns the payment to make, so that the
decisions are proved and the chain access stays outside.

The first contract's per-player, per-raffle records are kept in `Table`, a
list of entries with distinct keys whose view is a `Map`. The contract on
chain keeps them in `ink::storage::Mapping`, which holds nothing in memory:
each of its reads and writes is a call to the chain's storage, so it stays on
the chain side (`app/`), which loads the state, lets the library decide and
stores the result.
